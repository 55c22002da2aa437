//! The vocabulary of the memory graph: modes, kinds, scopes, queries, evidence and answers.
use vstd::prelude::*;

use crate::chars::{
    blank, chars_of, is_blank, is_white_space, opt_text, same_text, trim, trimmed, white_space,
};
use crate::error::{either_problem, failure, rejection, MemoryError, MemoryResult};
use crate::order::{ranked, sort_ranked, views, Ranking};
use crate::reconstruct::ReconstructionMetrics;

verus! {

/// The quoted form of a text, as the standard library's `Debug` writes it.
pub uninterp spec fn quoted_form(text: Seq<char>) -> Seq<char>;

/// Writes a text between quotes with its special characters escaped: the result of formatting
/// a `str` with `{:?}`, which depends on the text alone.
#[verifier::external_body]
pub(crate) fn quoted(text: &str) -> (r: String)
    ensures
        r@ == quoted_form(text@),
{
    format!("{:?}", text)
}

/// Which memory substores a query is allowed to consult.
#[derive(Clone, Copy, Debug, PartialEq, Eq, Hash, Structural)]
pub enum MemoryMode {
    Semantic,
    Episodic,
    Procedural,
    Gotcha,
    State,
}

impl MemoryMode {
    /// The kinds of node that a mode consults.
    pub open spec fn takes(self, kind: MemoryNodeKind) -> bool {
        match self {
            MemoryMode::Semantic => kind == MemoryNodeKind::Fact || kind
                == MemoryNodeKind::EntityCue || kind == MemoryNodeKind::Tag || kind
                == MemoryNodeKind::Topic,
            MemoryMode::Episodic => kind == MemoryNodeKind::Episode,
            MemoryMode::Procedural => kind == MemoryNodeKind::Procedure,
            MemoryMode::Gotcha => kind == MemoryNodeKind::Gotcha || kind
                == MemoryNodeKind::AntiMemory,
            MemoryMode::State => kind == MemoryNodeKind::State,
        }
    }

    #[must_use]
    pub fn accepts(self, kind: MemoryNodeKind) -> (r: bool)
        ensures
            r == self.takes(kind),
    {
        match self {
            MemoryMode::Semantic => matches!(
                kind,
                MemoryNodeKind::Fact | MemoryNodeKind::EntityCue | MemoryNodeKind::Tag
                | MemoryNodeKind::Topic
            ),
            MemoryMode::Episodic => kind == MemoryNodeKind::Episode,
            MemoryMode::Procedural => kind == MemoryNodeKind::Procedure,
            MemoryMode::Gotcha => matches!(kind, MemoryNodeKind::Gotcha | MemoryNodeKind::AntiMemory),
            MemoryMode::State => kind == MemoryNodeKind::State,
        }
    }
}

/// The highest retrieval tier used to produce an answer.
#[derive(Clone, Copy, Debug, PartialEq, Eq, Hash, Structural)]
pub enum MemoryTier {
    /// Lexical/entity cue seeding only.
    CueSeed,
    /// Graph activation without a language model.
    Activation,
    /// Budgeted path exploration for hard compositional queries.
    ActiveReconstruction,
}

/// Read-time active reconstruction policy.
#[derive(Clone, Copy, Debug, PartialEq, Eq, Hash, Structural)]
pub enum ReconstructionMode {
    Off,
    Auto,
    Force,
}

impl Default for ReconstructionMode {
    fn default() -> (r: Self)
        ensures
            r == ReconstructionMode::Off,
    {
        ReconstructionMode::Off
    }
}

impl ReconstructionMode {
    pub open spec fn name(self) -> Seq<char> {
        match self {
            ReconstructionMode::Off => "off"@,
            ReconstructionMode::Auto => "auto"@,
            ReconstructionMode::Force => "force"@,
        }
    }

    #[must_use]
    pub fn as_str(self) -> (r: &'static str)
        ensures
            r@ == self.name(),
    {
        match self {
            ReconstructionMode::Off => "off",
            ReconstructionMode::Auto => "auto",
            ReconstructionMode::Force => "force",
        }
    }
}

/// Why a query escalated into active reconstruction.
#[derive(Clone, Copy, Debug, PartialEq, Eq, Hash, Structural)]
pub enum ReconstructionReason {
    Forced,
    EmptyEvidence,
    LowConfidence,
    AmbiguousEvidence,
    CompositionalQuery,
}

/// Why the read router selected a query's effective memory substores.
#[derive(Clone, Copy, Debug, PartialEq, Eq, Hash, Structural)]
pub enum RoutingReason {
    SemanticIntent,
    EpisodicIntent,
    ProceduralIntent,
    GotchaIntent,
    StateIntent,
    AmbiguousFallback,
    EmptyRouteFallback,
}

/// Diagnostic report for deterministic typed-substore routing. The confidence is in hundredths.
#[derive(Clone, Debug, PartialEq, Eq)]
pub struct RoutingReport {
    pub allowed_modes: Vec<MemoryMode>,
    pub routed_modes: Vec<MemoryMode>,
    pub reconstruction_modes: Option<Vec<MemoryMode>>,
    pub reason: RoutingReason,
    pub confidence: u8,
}

pub struct RoutingModel {
    pub allowed_modes: Seq<MemoryMode>,
    pub routed_modes: Seq<MemoryMode>,
    pub reconstruction_modes: Option<Seq<MemoryMode>>,
    pub reason: RoutingReason,
    pub confidence: u8,
}

impl View for RoutingReport {
    type V = RoutingModel;

    open spec fn view(&self) -> RoutingModel {
        RoutingModel {
            allowed_modes: self.allowed_modes@,
            routed_modes: self.routed_modes@,
            reconstruction_modes: match self.reconstruction_modes {
                Some(modes) => Some(modes@),
                None => None,
            },
            reason: self.reason,
            confidence: self.confidence,
        }
    }
}

/// Query-time bounds for active reconstruction.
#[derive(Clone, Copy, Debug, PartialEq, Eq, Structural)]
pub struct ReconstructionOptions {
    pub mode: ReconstructionMode,
    pub max_steps: u8,
    pub max_tokens: u32,
}

pub fn default_reconstruction_max_steps() -> (r: u8)
    ensures
        r == 4,
{
    4
}

pub fn default_reconstruction_max_tokens() -> (r: u32)
    ensures
        r == 2_000,
{
    2_000
}

/// Options with the default bounds.
pub open spec fn options_with_mode(mode: ReconstructionMode) -> ReconstructionOptions {
    ReconstructionOptions { mode, max_steps: 4, max_tokens: 2_000 }
}

impl Default for ReconstructionOptions {
    fn default() -> (r: Self)
        ensures
            r == options_with_mode(ReconstructionMode::Off),
    {
        ReconstructionOptions {
            mode: ReconstructionMode::Off,
            max_steps: default_reconstruction_max_steps(),
            max_tokens: default_reconstruction_max_tokens(),
        }
    }
}

impl ReconstructionOptions {
    #[must_use]
    pub fn off() -> (r: Self)
        ensures
            r == options_with_mode(ReconstructionMode::Off),
    {
        ReconstructionOptions {
            mode: ReconstructionMode::Off,
            max_steps: default_reconstruction_max_steps(),
            max_tokens: default_reconstruction_max_tokens(),
        }
    }

    #[must_use]
    pub fn force() -> (r: Self)
        ensures
            r == options_with_mode(ReconstructionMode::Force),
    {
        ReconstructionOptions {
            mode: ReconstructionMode::Force,
            max_steps: default_reconstruction_max_steps(),
            max_tokens: default_reconstruction_max_tokens(),
        }
    }

    /// What is wrong with the options: a bound of zero.
    pub open spec fn problem(self) -> Option<Seq<char>> {
        if self.max_steps == 0 {
            Some("max_reconstruction_steps must be greater than 0"@)
        } else if self.max_tokens == 0 {
            Some("max_reconstruction_tokens must be greater than 0"@)
        } else {
            None
        }
    }

    pub fn validate(&self) -> (r: MemoryResult<()>)
        ensures
            failure(r) == rejection(self.problem()),
    {
        if self.max_steps == 0 {
            return Err(MemoryError::invalid("max_reconstruction_steps must be greater than 0"));
        }
        if self.max_tokens == 0 {
            return Err(MemoryError::invalid("max_reconstruction_tokens must be greater than 0"));
        }
        Ok(())
    }
}

/// Whether options are the ones that a query has when it names none.
pub fn is_default_reconstruction_options(options: &ReconstructionOptions) -> (r: bool)
    ensures
        r == (*options == options_with_mode(ReconstructionMode::Off)),
{
    *options == ReconstructionOptions::off()
}

/// Typed memory node families in the projection graph.
#[derive(Clone, Copy, Debug, PartialEq, Eq, Hash, Structural)]
pub enum MemoryNodeKind {
    Episode,
    Fact,
    EntityCue,
    Tag,
    Procedure,
    State,
    Gotcha,
    AntiMemory,
    Topic,
}

/// The modes of a query that names none.
pub open spec fn all_modes() -> Seq<MemoryMode> {
    seq![
        MemoryMode::Semantic,
        MemoryMode::Episodic,
        MemoryMode::Procedural,
        MemoryMode::Gotcha,
        MemoryMode::State,
    ]
}

impl MemoryNodeKind {
    pub open spec fn name(self) -> Seq<char> {
        match self {
            MemoryNodeKind::Episode => "episode"@,
            MemoryNodeKind::Fact => "fact"@,
            MemoryNodeKind::EntityCue => "entity_cue"@,
            MemoryNodeKind::Tag => "tag"@,
            MemoryNodeKind::Procedure => "procedure"@,
            MemoryNodeKind::State => "state"@,
            MemoryNodeKind::Gotcha => "gotcha"@,
            MemoryNodeKind::AntiMemory => "anti_memory"@,
            MemoryNodeKind::Topic => "topic"@,
        }
    }

    /// The kind that a name or one of its aliases stands for.
    pub open spec fn named(value: Seq<char>) -> Option<MemoryNodeKind> {
        if value == "episode"@ {
            Some(MemoryNodeKind::Episode)
        } else if value == "fact"@ {
            Some(MemoryNodeKind::Fact)
        } else if value == "entity_cue"@ || value == "entity"@ || value == "cue"@ {
            Some(MemoryNodeKind::EntityCue)
        } else if value == "tag"@ {
            Some(MemoryNodeKind::Tag)
        } else if value == "procedure"@ || value == "procedural"@ {
            Some(MemoryNodeKind::Procedure)
        } else if value == "state"@ {
            Some(MemoryNodeKind::State)
        } else if value == "gotcha"@ {
            Some(MemoryNodeKind::Gotcha)
        } else if value == "anti_memory"@ || value == "antimemory"@ || value == "anti-memory"@ {
            Some(MemoryNodeKind::AntiMemory)
        } else if value == "topic"@ {
            Some(MemoryNodeKind::Topic)
        } else {
            None
        }
    }

    #[must_use]
    pub fn as_str(self) -> (r: &'static str)
        ensures
            r@ == self.name(),
    {
        match self {
            MemoryNodeKind::Episode => "episode",
            MemoryNodeKind::Fact => "fact",
            MemoryNodeKind::EntityCue => "entity_cue",
            MemoryNodeKind::Tag => "tag",
            MemoryNodeKind::Procedure => "procedure",
            MemoryNodeKind::State => "state",
            MemoryNodeKind::Gotcha => "gotcha",
            MemoryNodeKind::AntiMemory => "anti_memory",
            MemoryNodeKind::Topic => "topic",
        }
    }

    #[must_use]
    pub fn default_modes() -> (r: Vec<MemoryMode>)
        ensures
            r@ == all_modes(),
    {
        let modes = vec![
            MemoryMode::Semantic,
            MemoryMode::Episodic,
            MemoryMode::Procedural,
            MemoryMode::Gotcha,
            MemoryMode::State,
        ];
        proof {
            assert(modes@ =~= all_modes());
        }
        modes
    }

    /// Reads a kind by its name or an alias.
    pub fn parse(value: &str) -> (r: Result<Self, String>)
        ensures
            match Self::named(value@) {
                Some(kind) => r == Ok::<Self, String>(kind),
                None => r matches Err(message) && message@ == "unknown memory node kind "@
                    + quoted_form(value@),
            },
    {
        if same_text(value, "episode") {
            Ok(MemoryNodeKind::Episode)
        } else if same_text(value, "fact") {
            Ok(MemoryNodeKind::Fact)
        } else if same_text(value, "entity_cue") || same_text(value, "entity") || same_text(
            value,
            "cue",
        ) {
            Ok(MemoryNodeKind::EntityCue)
        } else if same_text(value, "tag") {
            Ok(MemoryNodeKind::Tag)
        } else if same_text(value, "procedure") || same_text(value, "procedural") {
            Ok(MemoryNodeKind::Procedure)
        } else if same_text(value, "state") {
            Ok(MemoryNodeKind::State)
        } else if same_text(value, "gotcha") {
            Ok(MemoryNodeKind::Gotcha)
        } else if same_text(value, "anti_memory") || same_text(value, "antimemory") || same_text(
            value,
            "anti-memory",
        ) {
            Ok(MemoryNodeKind::AntiMemory)
        } else if same_text(value, "topic") {
            Ok(MemoryNodeKind::Topic)
        } else {
            Err("unknown memory node kind ".to_owned().concat(quoted(value).as_str()))
        }
    }
}

impl std::str::FromStr for MemoryNodeKind {
    type Err = String;

    fn from_str(value: &str) -> (r: Result<Self, String>)
        ensures
            match Self::named(value@) {
                Some(kind) => r == Ok::<Self, String>(kind),
                None => r matches Err(message) && message@ == "unknown memory node kind "@
                    + quoted_form(value@),
            },
    {
        Self::parse(value)
    }
}

/// Reading the name of a kind gives back the kind.
pub proof fn kind_names_read_back(kind: MemoryNodeKind)
    ensures
        MemoryNodeKind::named(kind.name()) == Some(kind),
{
    reveal_strlit("episode");
    reveal_strlit("fact");
    reveal_strlit("entity_cue");
    reveal_strlit("entity");
    reveal_strlit("cue");
    reveal_strlit("tag");
    reveal_strlit("procedure");
    reveal_strlit("procedural");
    reveal_strlit("state");
    reveal_strlit("gotcha");
    reveal_strlit("anti_memory");
    reveal_strlit("antimemory");
    reveal_strlit("anti-memory");
    reveal_strlit("topic");
    let s = kind.name();
    match kind {
        MemoryNodeKind::Episode => {},
        MemoryNodeKind::Fact => {
            assert(s[0] == 'f' && "episode"@[0] == 'e');
        },
        MemoryNodeKind::EntityCue => {
            assert(s[1] == 'n' && "episode"@[1] == 'p');
            assert("fact"@[0] == 'f' && s[0] == 'e');
        },
        MemoryNodeKind::Tag => {
            assert(s.len() == 3 && s[0] == 't' && "cue"@[0] == 'c');
        },
        MemoryNodeKind::Procedure => {
            assert(s[0] == 'p');
            assert("episode"@[0] == 'e');
            assert("entity_cue"@.len() == 10 && s.len() == 9);
        },
        MemoryNodeKind::State => {
            assert(s.len() == 5);
        },
        MemoryNodeKind::Gotcha => {
            assert(s.len() == 6 && s[0] == 'g' && "entity"@[0] == 'e');
        },
        MemoryNodeKind::AntiMemory => {
            assert(s[0] == 'a' && "entity_cue"@[0] == 'e' && "procedural"@[0] == 'p');
        },
        MemoryNodeKind::Topic => {
            assert(s.len() == 5 && s[0] == 't' && "state"@[0] == 's');
        },
    }
}

/// Typed graph edges used by the memory projection.
#[derive(Clone, Copy, Debug, PartialEq, Eq, Hash, Structural)]
pub enum MemoryEdgeKind {
    Mentions,
    CausedBy,
    Fixes,
    Contradicts,
    Supersedes,
    Before,
    After,
    PartOf,
    DerivedFrom,
    Blocks,
    Enables,
    ObservedIn,
}

impl MemoryEdgeKind {
    pub open spec fn name(self) -> Seq<char> {
        match self {
            MemoryEdgeKind::Mentions => "mentions"@,
            MemoryEdgeKind::CausedBy => "caused_by"@,
            MemoryEdgeKind::Fixes => "fixes"@,
            MemoryEdgeKind::Contradicts => "contradicts"@,
            MemoryEdgeKind::Supersedes => "supersedes"@,
            MemoryEdgeKind::Before => "before"@,
            MemoryEdgeKind::After => "after"@,
            MemoryEdgeKind::PartOf => "part_of"@,
            MemoryEdgeKind::DerivedFrom => "derived_from"@,
            MemoryEdgeKind::Blocks => "blocks"@,
            MemoryEdgeKind::Enables => "enables"@,
            MemoryEdgeKind::ObservedIn => "observed_in"@,
        }
    }

    /// The kind that a name stands for.
    pub open spec fn named(value: Seq<char>) -> Option<MemoryEdgeKind> {
        if value == "mentions"@ {
            Some(MemoryEdgeKind::Mentions)
        } else if value == "caused_by"@ {
            Some(MemoryEdgeKind::CausedBy)
        } else if value == "fixes"@ {
            Some(MemoryEdgeKind::Fixes)
        } else if value == "contradicts"@ {
            Some(MemoryEdgeKind::Contradicts)
        } else if value == "supersedes"@ {
            Some(MemoryEdgeKind::Supersedes)
        } else if value == "before"@ {
            Some(MemoryEdgeKind::Before)
        } else if value == "after"@ {
            Some(MemoryEdgeKind::After)
        } else if value == "part_of"@ {
            Some(MemoryEdgeKind::PartOf)
        } else if value == "derived_from"@ {
            Some(MemoryEdgeKind::DerivedFrom)
        } else if value == "blocks"@ {
            Some(MemoryEdgeKind::Blocks)
        } else if value == "enables"@ {
            Some(MemoryEdgeKind::Enables)
        } else if value == "observed_in"@ {
            Some(MemoryEdgeKind::ObservedIn)
        } else {
            None
        }
    }

    #[must_use]
    pub fn as_str(self) -> (r: &'static str)
        ensures
            r@ == self.name(),
    {
        match self {
            MemoryEdgeKind::Mentions => "mentions",
            MemoryEdgeKind::CausedBy => "caused_by",
            MemoryEdgeKind::Fixes => "fixes",
            MemoryEdgeKind::Contradicts => "contradicts",
            MemoryEdgeKind::Supersedes => "supersedes",
            MemoryEdgeKind::Before => "before",
            MemoryEdgeKind::After => "after",
            MemoryEdgeKind::PartOf => "part_of",
            MemoryEdgeKind::DerivedFrom => "derived_from",
            MemoryEdgeKind::Blocks => "blocks",
            MemoryEdgeKind::Enables => "enables",
            MemoryEdgeKind::ObservedIn => "observed_in",
        }
    }

    /// Reads a kind by its name.
    pub fn parse(value: &str) -> (r: Result<Self, String>)
        ensures
            match Self::named(value@) {
                Some(kind) => r == Ok::<Self, String>(kind),
                None => r matches Err(message) && message@ == "unknown memory edge kind "@
                    + quoted_form(value@),
            },
    {
        if same_text(value, "mentions") {
            Ok(MemoryEdgeKind::Mentions)
        } else if same_text(value, "caused_by") {
            Ok(MemoryEdgeKind::CausedBy)
        } else if same_text(value, "fixes") {
            Ok(MemoryEdgeKind::Fixes)
        } else if same_text(value, "contradicts") {
            Ok(MemoryEdgeKind::Contradicts)
        } else if same_text(value, "supersedes") {
            Ok(MemoryEdgeKind::Supersedes)
        } else if same_text(value, "before") {
            Ok(MemoryEdgeKind::Before)
        } else if same_text(value, "after") {
            Ok(MemoryEdgeKind::After)
        } else if same_text(value, "part_of") {
            Ok(MemoryEdgeKind::PartOf)
        } else if same_text(value, "derived_from") {
            Ok(MemoryEdgeKind::DerivedFrom)
        } else if same_text(value, "blocks") {
            Ok(MemoryEdgeKind::Blocks)
        } else if same_text(value, "enables") {
            Ok(MemoryEdgeKind::Enables)
        } else if same_text(value, "observed_in") {
            Ok(MemoryEdgeKind::ObservedIn)
        } else {
            Err("unknown memory edge kind ".to_owned().concat(quoted(value).as_str()))
        }
    }
}

impl std::str::FromStr for MemoryEdgeKind {
    type Err = String;

    fn from_str(value: &str) -> (r: Result<Self, String>)
        ensures
            match Self::named(value@) {
                Some(kind) => r == Ok::<Self, String>(kind),
                None => r matches Err(message) && message@ == "unknown memory edge kind "@
                    + quoted_form(value@),
            },
    {
        Self::parse(value)
    }
}

/// Reading the name of an edge kind gives back the kind, and no two kinds share a name.
pub proof fn edge_kind_names_read_back(kind: MemoryEdgeKind, other: MemoryEdgeKind)
    ensures
        MemoryEdgeKind::named(kind.name()) == Some(kind),
        kind != other ==> kind.name() != other.name(),
{
    lemma_edge_kind_name(kind);
    lemma_edge_kind_name(other);
}

proof fn lemma_edge_kind_name(kind: MemoryEdgeKind)
    ensures
        MemoryEdgeKind::named(kind.name()) == Some(kind),
{
    reveal_strlit("mentions");
    reveal_strlit("caused_by");
    reveal_strlit("fixes");
    reveal_strlit("contradicts");
    reveal_strlit("supersedes");
    reveal_strlit("before");
    reveal_strlit("after");
    reveal_strlit("part_of");
    reveal_strlit("derived_from");
    reveal_strlit("blocks");
    reveal_strlit("enables");
    reveal_strlit("observed_in");
    assert("mentions"@[0] == 'm' && "caused_by"@[0] == 'c' && "fixes"@[0] == 'f'
        && "contradicts"@[0] == 'c' && "supersedes"@[0] == 's' && "before"@[0] == 'b'
        && "after"@[0] == 'a' && "part_of"@[0] == 'p' && "derived_from"@[0] == 'd' && "blocks"@[0]
        == 'b' && "enables"@[0] == 'e' && "observed_in"@[0] == 'o');
    assert("blocks"@[1] == 'l' && "before"@[1] == 'e');
    assert("caused_by"@[1] == 'a' && "contradicts"@[1] == 'o');
}

/// Belief revision operation emitted by the offline distiller.
#[derive(Clone, Copy, Debug, PartialEq, Eq, Hash, Structural)]
pub enum BeliefRevisionOp {
    Add,
    Update,
    Invalidate,
    Noop,
}

impl BeliefRevisionOp {
    pub open spec fn name(self) -> Seq<char> {
        match self {
            BeliefRevisionOp::Add => "add"@,
            BeliefRevisionOp::Update => "update"@,
            BeliefRevisionOp::Invalidate => "invalidate"@,
            BeliefRevisionOp::Noop => "noop"@,
        }
    }

    /// The operation that a name or one of its aliases stands for.
    pub open spec fn named(value: Seq<char>) -> Option<BeliefRevisionOp> {
        if value == "add"@ || value == "ADD"@ {
            Some(BeliefRevisionOp::Add)
        } else if value == "update"@ || value == "UPDATE"@ {
            Some(BeliefRevisionOp::Update)
        } else if value == "invalidate"@ || value == "INVALIDATE"@ || value == "delete"@ || value
            == "DELETE"@ {
            Some(BeliefRevisionOp::Invalidate)
        } else if value == "noop"@ || value == "NOOP"@ || value == "no_op"@ {
            Some(BeliefRevisionOp::Noop)
        } else {
            None
        }
    }

    #[must_use]
    pub fn as_str(self) -> (r: &'static str)
        ensures
            r@ == self.name(),
    {
        match self {
            BeliefRevisionOp::Add => "add",
            BeliefRevisionOp::Update => "update",
            BeliefRevisionOp::Invalidate => "invalidate",
            BeliefRevisionOp::Noop => "noop",
        }
    }

    /// Reads an operation by its name or an alias.
    pub fn parse(value: &str) -> (r: Result<Self, String>)
        ensures
            match Self::named(value@) {
                Some(op) => r == Ok::<Self, String>(op),
                None => r matches Err(message) && message@ == "unknown belief revision op "@
                    + quoted_form(value@),
            },
    {
        if same_text(value, "add") || same_text(value, "ADD") {
            Ok(BeliefRevisionOp::Add)
        } else if same_text(value, "update") || same_text(value, "UPDATE") {
            Ok(BeliefRevisionOp::Update)
        } else if same_text(value, "invalidate") || same_text(value, "INVALIDATE") || same_text(
            value,
            "delete",
        ) || same_text(value, "DELETE") {
            Ok(BeliefRevisionOp::Invalidate)
        } else if same_text(value, "noop") || same_text(value, "NOOP") || same_text(
            value,
            "no_op",
        ) {
            Ok(BeliefRevisionOp::Noop)
        } else {
            Err("unknown belief revision op ".to_owned().concat(quoted(value).as_str()))
        }
    }
}

impl std::str::FromStr for BeliefRevisionOp {
    type Err = String;

    fn from_str(value: &str) -> (r: Result<Self, String>)
        ensures
            match Self::named(value@) {
                Some(op) => r == Ok::<Self, String>(op),
                None => r matches Err(message) && message@ == "unknown belief revision op "@
                    + quoted_form(value@),
            },
    {
        Self::parse(value)
    }
}

/// Reading the name of an operation gives back the operation, and no two share a name.
pub proof fn revision_names_read_back(op: BeliefRevisionOp, other: BeliefRevisionOp)
    ensures
        BeliefRevisionOp::named(op.name()) == Some(op),
        op != other ==> op.name() != other.name(),
{
    lemma_revision_name(op);
    lemma_revision_name(other);
}

proof fn lemma_revision_name(op: BeliefRevisionOp)
    ensures
        BeliefRevisionOp::named(op.name()) == Some(op),
{
    reveal_strlit("add");
    reveal_strlit("ADD");
    reveal_strlit("update");
    reveal_strlit("UPDATE");
    reveal_strlit("invalidate");
    reveal_strlit("INVALIDATE");
    reveal_strlit("delete");
    reveal_strlit("DELETE");
    reveal_strlit("noop");
    reveal_strlit("NOOP");
    reveal_strlit("no_op");
    assert("add"@[0] == 'a' && "update"@[0] == 'u' && "invalidate"@[0] == 'i' && "noop"@[0] == 'n');
    assert("ADD"@[0] == 'A' && "UPDATE"@[0] == 'U' && "INVALIDATE"@[0] == 'I' && "DELETE"@[0] == 'D'
        && "delete"@[0] == 'd');
}

// ---------------------------------------------------------------------------
// Identifiers and texts that must be there
// ---------------------------------------------------------------------------
/// What is wrong with an identifier: blank, or padded with white space.
pub open spec fn identifier_problem(field: Seq<char>, value: Seq<char>) -> Option<Seq<char>> {
    if blank(value) {
        Some(field + " must not be empty"@)
    } else if trim(value) != value {
        Some(field + " must not have leading or trailing whitespace"@)
    } else {
        None
    }
}

/// What is wrong with an identifier that may be left out.
pub open spec fn opt_identifier_problem(field: Seq<char>, value: Option<Seq<char>>) -> Option<
    Seq<char>,
> {
    match value {
        Some(text) => identifier_problem(field, text),
        None => None,
    }
}

/// What is wrong with a text that must say something.
pub open spec fn text_problem(field: Seq<char>, value: Seq<char>) -> Option<Seq<char>> {
    if blank(value) {
        Some(field + " must not be empty"@)
    } else {
        None
    }
}

pub fn validate_required_identifier(field: &str, value: &str) -> (r: MemoryResult<()>)
    ensures
        failure(r) == rejection(identifier_problem(field@, value@)),
{
    if is_blank(value) {
        return Err(MemoryError::InvalidInput(field.to_owned().concat(" must not be empty")));
    }
    let core = trimmed(value);
    if !same_text(core.as_str(), value) {
        return Err(
            MemoryError::InvalidInput(
                field.to_owned().concat(" must not have leading or trailing whitespace"),
            ),
        );
    }
    Ok(())
}

pub fn validate_optional_identifier(field: &str, value: &Option<String>) -> (r: MemoryResult<()>)
    ensures
        failure(r) == rejection(opt_identifier_problem(field@, opt_text(*value))),
{
    match value {
        Some(text) => validate_required_identifier(field, text.as_str()),
        None => Ok(()),
    }
}

pub fn validate_required_text(field: &str, value: &str) -> (r: MemoryResult<()>)
    ensures
        failure(r) == rejection(text_problem(field@, value@)),
{
    if is_blank(value) {
        Err(MemoryError::InvalidInput(field.to_owned().concat(" must not be empty")))
    } else {
        Ok(())
    }
}

// ---------------------------------------------------------------------------
// Scopes and queries
// ---------------------------------------------------------------------------
/// Tenant/project/time scope for a memory query: the time that it asks about, and the time that
/// it knows from.
#[derive(Debug, PartialEq, Eq)]
pub struct MemoryScope {
    pub tenant_id: String,
    pub project_id: String,
    pub environment_id: Option<String>,
    pub as_of_unix_ms: Option<i64>,
    pub known_at_unix_ms: Option<i64>,
}

pub struct ScopeModel {
    pub tenant_id: Seq<char>,
    pub project_id: Seq<char>,
    pub environment_id: Option<Seq<char>>,
    pub as_of_unix_ms: Option<i64>,
    pub known_at_unix_ms: Option<i64>,
}

impl View for MemoryScope {
    type V = ScopeModel;

    open spec fn view(&self) -> ScopeModel {
        ScopeModel {
            tenant_id: self.tenant_id@,
            project_id: self.project_id@,
            environment_id: opt_text(self.environment_id),
            as_of_unix_ms: self.as_of_unix_ms,
            known_at_unix_ms: self.known_at_unix_ms,
        }
    }
}

impl ScopeModel {
    /// The first thing wrong with a scope.
    pub open spec fn problem(self) -> Option<Seq<char>> {
        either_problem(
            either_problem(
                either_problem(
                    either_problem(
                        identifier_problem("tenant_id"@, self.tenant_id),
                        identifier_problem("project_id"@, self.project_id),
                    ),
                    opt_identifier_problem("environment_id"@, self.environment_id),
                ),
                match self.as_of_unix_ms {
                    Some(as_of) => if as_of < 0 {
                        Some("as_of_unix_ms must be non-negative"@)
                    } else {
                        None
                    },
                    None => None,
                },
            ),
            match self.known_at_unix_ms {
                Some(known_at) => if known_at < 0 {
                    Some("known_at_unix_ms must be non-negative"@)
                } else {
                    None
                },
                None => None,
            },
        )
    }
}

/// A copy of an optional string.
pub fn copy_opt_text(value: &Option<String>) -> (r: Option<String>)
    ensures
        opt_text(r) == opt_text(*value),
{
    match value {
        Some(text) => Some(text.clone()),
        None => None,
    }
}

impl Clone for MemoryScope {
    fn clone(&self) -> (r: Self)
        ensures
            r@ == self@,
    {
        MemoryScope {
            tenant_id: self.tenant_id.clone(),
            project_id: self.project_id.clone(),
            environment_id: copy_opt_text(&self.environment_id),
            as_of_unix_ms: self.as_of_unix_ms,
            known_at_unix_ms: self.known_at_unix_ms,
        }
    }
}

impl MemoryScope {
    #[must_use]
    pub fn new(tenant_id: &str, project_id: &str) -> (r: Self)
        ensures
            r@ == (ScopeModel {
                tenant_id: tenant_id@,
                project_id: project_id@,
                environment_id: None,
                as_of_unix_ms: None,
                known_at_unix_ms: None,
            }),
    {
        MemoryScope {
            tenant_id: tenant_id.to_owned(),
            project_id: project_id.to_owned(),
            environment_id: None,
            as_of_unix_ms: None,
            known_at_unix_ms: None,
        }
    }

    #[must_use]
    pub fn with_environment(self, environment_id: &str) -> (r: Self)
        ensures
            r@ == (ScopeModel { environment_id: Some(environment_id@), ..self@ }),
    {
        let mut scope = self;
        scope.environment_id = Some(environment_id.to_owned());
        scope
    }

    #[must_use]
    pub fn as_of_unix_ms(self, as_of_unix_ms: i64) -> (r: Self)
        ensures
            r@ == (ScopeModel { as_of_unix_ms: Some(as_of_unix_ms), ..self@ }),
    {
        let mut scope = self;
        scope.as_of_unix_ms = Some(as_of_unix_ms);
        scope
    }

    /// Reads from what the ledger had taken in by a time.
    #[must_use]
    pub fn known_at_unix_ms(self, known_at_unix_ms: i64) -> (r: Self)
        ensures
            r@ == (ScopeModel { known_at_unix_ms: Some(known_at_unix_ms), ..self@ }),
    {
        let mut scope = self;
        scope.known_at_unix_ms = Some(known_at_unix_ms);
        scope
    }

    pub fn validate(&self) -> (r: MemoryResult<()>)
        ensures
            failure(r) == rejection(self@.problem()),
    {
        validate_required_identifier("tenant_id", self.tenant_id.as_str())?;
        validate_required_identifier("project_id", self.project_id.as_str())?;
        validate_optional_identifier("environment_id", &self.environment_id)?;
        if let Some(as_of) = self.as_of_unix_ms {
            if as_of < 0 {
                return Err(MemoryError::invalid("as_of_unix_ms must be non-negative"));
            }
        }
        if let Some(known_at) = self.known_at_unix_ms {
            if known_at < 0 {
                return Err(MemoryError::invalid("known_at_unix_ms must be non-negative"));
            }
        }
        Ok(())
    }
}

/// Answer-shaped memory request.
#[derive(Debug, PartialEq, Eq)]
pub struct MemoryQuery {
    pub question: String,
    pub scope: MemoryScope,
    pub max_tokens: u32,
    pub require_fresh: bool,
    pub modes: Vec<MemoryMode>,
    pub modes_explicit: bool,
    pub reconstruction: ReconstructionOptions,
}

pub struct QueryModel {
    pub question: Seq<char>,
    pub scope: ScopeModel,
    pub max_tokens: u32,
    pub require_fresh: bool,
    pub modes: Seq<MemoryMode>,
    pub modes_explicit: bool,
    pub reconstruction: ReconstructionOptions,
}

impl View for MemoryQuery {
    type V = QueryModel;

    open spec fn view(&self) -> QueryModel {
        QueryModel {
            question: self.question@,
            scope: self.scope@,
            max_tokens: self.max_tokens,
            require_fresh: self.require_fresh,
            modes: self.modes@,
            modes_explicit: self.modes_explicit,
            reconstruction: self.reconstruction,
        }
    }
}

/// Some mode of the list consults nodes of the kind.
pub open spec fn modes_take(modes: Seq<MemoryMode>, kind: MemoryNodeKind) -> bool {
    exists|i: int| 0 <= i < modes.len() && (#[trigger] modes[i]).takes(kind)
}

/// Whether some mode of the list consults nodes of the kind.
pub fn modes_accept_kind(modes: &Vec<MemoryMode>, kind: MemoryNodeKind) -> (r: bool)
    ensures
        r == modes_take(modes@, kind),
{
    let mut i: usize = 0;
    while i < modes.len()
        invariant
            i <= modes@.len(),
            forall|k: int| 0 <= k < i ==> !(#[trigger] modes@[k]).takes(kind),
        decreases modes.len() - i,
    {
        if modes[i].accepts(kind) {
            return true;
        }
        i += 1;
    }
    false
}

pub fn copy_modes(modes: &Vec<MemoryMode>) -> (r: Vec<MemoryMode>)
    ensures
        r@ == modes@,
{
    let mut out: Vec<MemoryMode> = Vec::new();
    let mut i: usize = 0;
    while i < modes.len()
        invariant
            i <= modes@.len(),
            out@ == modes@.take(i as int),
        decreases modes.len() - i,
    {
        out.push(modes[i]);
        i += 1;
        proof {
            assert(out@ =~= modes@.take(i as int));
        }
    }
    proof {
        assert(modes@.take(i as int) =~= modes@);
    }
    out
}

impl QueryModel {
    /// The first thing wrong with a query.
    pub open spec fn problem(self) -> Option<Seq<char>> {
        either_problem(
            either_problem(
                either_problem(
                    either_problem(
                        self.scope.problem(),
                        text_problem("question"@, self.question),
                    ),
                    if self.max_tokens == 0 {
                        Some("max_tokens must be greater than 0"@)
                    } else {
                        None
                    },
                ),
                if self.modes.len() == 0 {
                    Some("modes must not be empty"@)
                } else {
                    None
                },
            ),
            self.reconstruction.problem(),
        )
    }
}

impl Clone for MemoryQuery {
    fn clone(&self) -> (r: Self)
        ensures
            r@ == self@,
    {
        MemoryQuery {
            question: self.question.clone(),
            scope: self.scope.clone(),
            max_tokens: self.max_tokens,
            require_fresh: self.require_fresh,
            modes: copy_modes(&self.modes),
            modes_explicit: self.modes_explicit,
            reconstruction: self.reconstruction,
        }
    }
}

impl MemoryQuery {
    #[must_use]
    pub fn new(question: &str, scope: MemoryScope) -> (r: Self)
        ensures
            r@ == (QueryModel {
                question: question@,
                scope: scope@,
                max_tokens: 1_200,
                require_fresh: false,
                modes: all_modes(),
                modes_explicit: false,
                reconstruction: options_with_mode(ReconstructionMode::Off),
            }),
    {
        MemoryQuery {
            question: question.to_owned(),
            scope,
            max_tokens: 1_200,
            require_fresh: false,
            modes: MemoryNodeKind::default_modes(),
            modes_explicit: false,
            reconstruction: ReconstructionOptions::off(),
        }
    }

    #[must_use]
    pub fn with_max_tokens(self, max_tokens: u32) -> (r: Self)
        ensures
            r@ == (QueryModel { max_tokens, ..self@ }),
    {
        let mut query = self;
        query.max_tokens = max_tokens;
        query
    }

    #[must_use]
    pub fn requiring_fresh(self) -> (r: Self)
        ensures
            r@ == (QueryModel { require_fresh: true, ..self@ }),
    {
        let mut query = self;
        query.require_fresh = true;
        query
    }

    #[must_use]
    pub fn with_modes(self, modes: Vec<MemoryMode>) -> (r: Self)
        ensures
            r@ == (QueryModel { modes: modes@, modes_explicit: true, ..self@ }),
    {
        let mut query = self;
        query.modes = modes;
        query.modes_explicit = true;
        query
    }

    #[must_use]
    pub fn with_reconstruction(self, reconstruction: ReconstructionOptions) -> (r: Self)
        ensures
            r@ == (QueryModel { reconstruction, ..self@ }),
    {
        let mut query = self;
        query.reconstruction = reconstruction;
        query
    }

    #[must_use]
    pub fn accepts_kind(&self, kind: MemoryNodeKind) -> (r: bool)
        ensures
            r == modes_take(self@.modes, kind),
    {
        modes_accept_kind(&self.modes, kind)
    }

    pub fn validate(&self) -> (r: MemoryResult<()>)
        ensures
            failure(r) == rejection(self@.problem()),
    {
        self.scope.validate()?;
        validate_required_text("question", self.question.as_str())?;
        if self.max_tokens == 0 {
            return Err(MemoryError::invalid("max_tokens must be greater than 0"));
        }
        if self.modes.len() == 0 {
            return Err(MemoryError::invalid("modes must not be empty"));
        }
        self.reconstruction.validate()
    }
}

// ---------------------------------------------------------------------------
// Provenance and evidence
// ---------------------------------------------------------------------------
/// Span provenance for a returned memory.
#[derive(Debug, PartialEq, Eq)]
pub struct CitedSpan {
    pub tenant_id: String,
    pub project_id: String,
    pub trace_id: String,
    pub span_id: String,
    pub seq: u64,
}

pub struct SpanModel {
    pub tenant_id: Seq<char>,
    pub project_id: Seq<char>,
    pub trace_id: Seq<char>,
    pub span_id: Seq<char>,
    pub seq: u64,
}

impl View for CitedSpan {
    type V = SpanModel;

    open spec fn view(&self) -> SpanModel {
        SpanModel {
            tenant_id: self.tenant_id@,
            project_id: self.project_id@,
            trace_id: self.trace_id@,
            span_id: self.span_id@,
            seq: self.seq,
        }
    }
}

impl SpanModel {
    /// The first thing wrong with a cited span.
    pub open spec fn problem(self) -> Option<Seq<char>> {
        either_problem(
            either_problem(
                either_problem(
                    either_problem(
                        identifier_problem("cited_span.tenant_id"@, self.tenant_id),
                        identifier_problem("cited_span.project_id"@, self.project_id),
                    ),
                    identifier_problem("cited_span.trace_id"@, self.trace_id),
                ),
                identifier_problem("cited_span.span_id"@, self.span_id),
            ),
            if self.seq == 0 {
                Some("cited_span.seq must be greater than 0"@)
            } else {
                None
            },
        )
    }
}

impl Clone for CitedSpan {
    fn clone(&self) -> (r: Self)
        ensures
            r@ == self@,
    {
        CitedSpan {
            tenant_id: self.tenant_id.clone(),
            project_id: self.project_id.clone(),
            trace_id: self.trace_id.clone(),
            span_id: self.span_id.clone(),
            seq: self.seq,
        }
    }
}

impl CitedSpan {
    pub fn validate(&self) -> (r: MemoryResult<()>)
        ensures
            failure(r) == rejection(self@.problem()),
    {
        validate_required_identifier("cited_span.tenant_id", self.tenant_id.as_str())?;
        validate_required_identifier("cited_span.project_id", self.project_id.as_str())?;
        validate_required_identifier("cited_span.trace_id", self.trace_id.as_str())?;
        validate_required_identifier("cited_span.span_id", self.span_id.as_str())?;
        if self.seq == 0 {
            return Err(MemoryError::invalid("cited_span.seq must be greater than 0"));
        }
        Ok(())
    }

    /// Whether two spans name the same place in a trace.
    pub fn same(&self, other: &CitedSpan) -> (r: bool)
        ensures
            r == (self@ == other@),
    {
        self.seq == other.seq && same_text(self.tenant_id.as_str(), other.tenant_id.as_str())
            && same_text(self.project_id.as_str(), other.project_id.as_str()) && same_text(
            self.trace_id.as_str(),
            other.trace_id.as_str(),
        ) && same_text(self.span_id.as_str(), other.span_id.as_str())
    }
}

pub fn copy_spans(spans: &Vec<CitedSpan>) -> (r: Vec<CitedSpan>)
    ensures
        views(r@) == views(spans@),
{
    let mut out: Vec<CitedSpan> = Vec::new();
    let mut i: usize = 0;
    while i < spans.len()
        invariant
            i <= spans@.len(),
            views(out@) == views(spans@).take(i as int),
        decreases spans.len() - i,
    {
        let ghost before = views(out@);
        let span = spans[i].clone();
        out.push(span);
        i += 1;
        proof {
            assert(views(out@) =~= before.push(spans@[i as int - 1]@));
            assert(views(out@) =~= views(spans@).take(i as int));
        }
    }
    proof {
        assert(views(spans@).take(i as int) =~= views(spans@));
    }
    out
}

/// One compact evidence item that can be placed into model context. The score is in
/// billionths.
#[derive(Debug, PartialEq, Eq)]
pub struct Evidence {
    pub node_id: String,
    pub kind: MemoryNodeKind,
    pub text: String,
    pub score: u32,
    pub token_estimate: u32,
    pub cited_spans: Vec<CitedSpan>,
}

pub struct EvidenceModel {
    pub node_id: Seq<char>,
    pub kind: MemoryNodeKind,
    pub text: Seq<char>,
    pub score: u32,
    pub token_estimate: u32,
    pub cited_spans: Seq<SpanModel>,
}

impl View for Evidence {
    type V = EvidenceModel;

    open spec fn view(&self) -> EvidenceModel {
        EvidenceModel {
            node_id: self.node_id@,
            kind: self.kind,
            text: self.text@,
            score: self.score,
            token_estimate: self.token_estimate,
            cited_spans: views(self.cited_spans@),
        }
    }
}

impl Clone for Evidence {
    fn clone(&self) -> (r: Self)
        ensures
            r@ == self@,
    {
        Evidence {
            node_id: self.node_id.clone(),
            kind: self.kind,
            text: self.text.clone(),
            score: self.score,
            token_estimate: self.token_estimate,
            cited_spans: copy_spans(&self.cited_spans),
        }
    }
}

impl Evidence {
    #[must_use]
    pub fn new(node_id: &str, kind: MemoryNodeKind, text: &str, score: u32) -> (r: Self)
        ensures
            r@ == (EvidenceModel {
                node_id: node_id@,
                kind,
                text: text@,
                score,
                token_estimate: token_cost(text@),
                cited_spans: Seq::empty(),
            }),
    {
        let token_estimate: u32 = estimate_tokens(text);
        let cited_spans: Vec<CitedSpan> = Vec::new();
        proof {
            assert(views(cited_spans@) =~= Seq::<SpanModel>::empty());
        }
        Evidence {
            node_id: node_id.to_owned(),
            kind,
            text: text.to_owned(),
            score,
            token_estimate,
            cited_spans,
        }
    }

    #[must_use]
    pub fn with_cited_span(self, span: CitedSpan) -> (r: Self)
        ensures
            r@ == (EvidenceModel { cited_spans: self@.cited_spans.push(span@), ..self@ }),
    {
        let mut item = self;
        item.cited_spans.push(span);
        proof {
            assert(views(item.cited_spans@) =~= self@.cited_spans.push(span@));
        }
        item
    }
}

/// A contradiction surfaced instead of silently collapsed.
#[derive(Clone, Debug, PartialEq, Eq)]
pub struct Contradiction {
    pub older_node_id: String,
    pub newer_node_id: String,
    pub summary: String,
}

pub struct ContradictionModel {
    pub older_node_id: Seq<char>,
    pub newer_node_id: Seq<char>,
    pub summary: Seq<char>,
}

impl View for Contradiction {
    type V = ContradictionModel;

    open spec fn view(&self) -> ContradictionModel {
        ContradictionModel {
            older_node_id: self.older_node_id@,
            newer_node_id: self.newer_node_id@,
            summary: self.summary@,
        }
    }
}

/// A premise that may be stale under the query's requested time/freshness.
#[derive(Clone, Debug, PartialEq, Eq)]
pub struct StaleAssumption {
    pub node_id: String,
    pub summary: String,
    pub invalidated_at_unix_ms: Option<i64>,
}

pub struct StaleModel {
    pub node_id: Seq<char>,
    pub summary: Seq<char>,
    pub invalidated_at_unix_ms: Option<i64>,
}

impl View for StaleAssumption {
    type V = StaleModel;

    open spec fn view(&self) -> StaleModel {
        StaleModel {
            node_id: self.node_id@,
            summary: self.summary@,
            invalidated_at_unix_ms: self.invalidated_at_unix_ms,
        }
    }
}

/// Diagnostic report for a bounded active reconstruction pass.
#[derive(Clone, Debug, PartialEq, Eq)]
pub struct ReconstructionReport {
    pub mode: ReconstructionMode,
    pub reason: ReconstructionReason,
    pub steps_used: u8,
    pub tokens_spent: u32,
    pub expanded_node_ids: Vec<String>,
    pub accepted_node_ids: Vec<String>,
    pub pruned_node_ids: Vec<String>,
    pub metrics: ReconstructionMetrics,
}

/// Answer returned by the memory engine.
#[derive(Clone, Debug, PartialEq, Eq)]
pub struct MemoryAnswer {
    pub answer: String,
    pub evidence: Vec<Evidence>,
    pub cited_spans: Vec<CitedSpan>,
    pub contradictions: Vec<Contradiction>,
    pub stale_assumptions: Vec<StaleAssumption>,
    pub suggested_next_queries: Vec<String>,
    pub token_estimate: u32,
    pub tier_used: MemoryTier,
    pub routing: Option<RoutingReport>,
    pub reconstruction: Option<ReconstructionReport>,
}

impl MemoryAnswer {
    /// An answer that says nothing.
    #[must_use]
    pub fn empty(tier_used: MemoryTier) -> (r: Self)
        ensures
            r.answer@.len() == 0,
            r.evidence@.len() == 0,
            r.cited_spans@.len() == 0,
            r.contradictions@.len() == 0,
            r.stale_assumptions@.len() == 0,
            r.suggested_next_queries@.len() == 0,
            r.token_estimate == 0,
            r.tier_used == tier_used,
            r.routing is None,
            r.reconstruction is None,
    {
        MemoryAnswer {
            answer: String::new(),
            evidence: Vec::new(),
            cited_spans: Vec::new(),
            contradictions: Vec::new(),
            stale_assumptions: Vec::new(),
            suggested_next_queries: Vec::new(),
            token_estimate: 0,
            tier_used,
            routing: None,
            reconstruction: None,
        }
    }
}

// ---------------------------------------------------------------------------
// Distilled memories
// ---------------------------------------------------------------------------
/// Output of an offline distillation pass before it is applied to projections.
#[derive(Debug, PartialEq, Eq)]
pub struct DistilledMemory {
    pub op: BeliefRevisionOp,
    pub node_kind: MemoryNodeKind,
    pub text: String,
    pub target_node_id: Option<String>,
    pub cited_spans: Vec<CitedSpan>,
}

pub struct DistilledModel {
    pub op: BeliefRevisionOp,
    pub node_kind: MemoryNodeKind,
    pub text: Seq<char>,
    pub target_node_id: Option<Seq<char>>,
    pub cited_spans: Seq<SpanModel>,
}

impl View for DistilledMemory {
    type V = DistilledModel;

    open spec fn view(&self) -> DistilledModel {
        DistilledModel {
            op: self.op,
            node_kind: self.node_kind,
            text: self.text@,
            target_node_id: opt_text(self.target_node_id),
            cited_spans: views(self.cited_spans@),
        }
    }
}

/// The first thing wrong with the spans of a list.
pub open spec fn spans_problem(spans: Seq<SpanModel>) -> Option<Seq<char>>
    decreases spans.len(),
{
    if spans.len() == 0 {
        None
    } else {
        either_problem(spans_problem(spans.drop_last()), spans.last().problem())
    }
}

impl DistilledModel {
    /// What is wrong with the shape that the operation asks for.
    pub open spec fn shape_problem(self) -> Option<Seq<char>> {
        match self.op {
            BeliefRevisionOp::Add => text_problem("text"@, self.text),
            BeliefRevisionOp::Update => text_problem("text"@, self.text),
            BeliefRevisionOp::Invalidate => if blank(self.text) && self.target_node_id is None {
                Some("invalidate memory must include text or target_node_id"@)
            } else {
                None
            },
            BeliefRevisionOp::Noop => if self.target_node_id is Some {
                Some("noop memory must not include target_node_id"@)
            } else {
                None
            },
        }
    }

    /// The first thing wrong with a distilled memory.
    pub open spec fn problem(self) -> Option<Seq<char>> {
        if self.cited_spans.len() == 0 {
            Some("cited_spans must not be empty"@)
        } else {
            either_problem(
                either_problem(
                    spans_problem(self.cited_spans),
                    opt_identifier_problem("target_node_id"@, self.target_node_id),
                ),
                self.shape_problem(),
            )
        }
    }
}

impl Clone for DistilledMemory {
    fn clone(&self) -> (r: Self)
        ensures
            r@ == self@,
    {
        DistilledMemory {
            op: self.op,
            node_kind: self.node_kind,
            text: self.text.clone(),
            target_node_id: copy_opt_text(&self.target_node_id),
            cited_spans: copy_spans(&self.cited_spans),
        }
    }
}

impl DistilledMemory {
    #[must_use]
    pub fn add(node_kind: MemoryNodeKind, text: &str, cited_span: CitedSpan) -> (r: Self)
        ensures
            r@ == (DistilledModel {
                op: BeliefRevisionOp::Add,
                node_kind,
                text: text@,
                target_node_id: None,
                cited_spans: seq![cited_span@],
            }),
    {
        let mut cited_spans: Vec<CitedSpan> = Vec::new();
        let ghost span = cited_span@;
        cited_spans.push(cited_span);
        proof {
            assert(views(cited_spans@) =~= seq![span]);
        }
        DistilledMemory {
            op: BeliefRevisionOp::Add,
            node_kind,
            text: text.to_owned(),
            target_node_id: None,
            cited_spans,
        }
    }

    pub fn validate(&self) -> (r: MemoryResult<()>)
        ensures
            failure(r) == rejection(self@.problem()),
    {
        if self.cited_spans.len() == 0 {
            return Err(MemoryError::invalid("cited_spans must not be empty"));
        }
        let ghost all = views(self.cited_spans@);
        let mut i: usize = 0;
        proof {
            assert(all.take(0) =~= Seq::empty());
        }
        while i < self.cited_spans.len()
            invariant
                i <= self.cited_spans@.len(),
                all == views(self.cited_spans@),
                self@.cited_spans == all,
                all.len() > 0,
                spans_problem(all.take(i as int)) is None,
            decreases self.cited_spans.len() - i,
        {
            proof {
                assert(all.take(i as int + 1).drop_last() =~= all.take(i as int));
                assert(all.take(i as int + 1).last() == self.cited_spans@[i as int]@);
            }
            let checked = self.cited_spans[i].validate();
            if checked.is_err() {
                proof {
                    lemma_spans_problem_prefix(all, i as int + 1);
                }
                return checked;
            }
            i += 1;
        }
        proof {
            assert(all.take(i as int) =~= all);
        }
        validate_optional_identifier("target_node_id", &self.target_node_id)?;
        match self.op {
            BeliefRevisionOp::Add => validate_required_text("text", self.text.as_str()),
            BeliefRevisionOp::Update => validate_required_text("text", self.text.as_str()),
            BeliefRevisionOp::Invalidate => if is_blank(self.text.as_str())
                && self.target_node_id.is_none() {
                Err(MemoryError::invalid("invalidate memory must include text or target_node_id"))
            } else {
                Ok(())
            },
            BeliefRevisionOp::Noop => if self.target_node_id.is_some() {
                Err(MemoryError::invalid("noop memory must not include target_node_id"))
            } else {
                Ok(())
            },
        }
    }
}

proof fn lemma_spans_problem_prefix(spans: Seq<SpanModel>, k: int)
    requires
        0 <= k <= spans.len(),
        spans_problem(spans.take(k)) is Some,
    ensures
        spans_problem(spans) == spans_problem(spans.take(k)),
    decreases spans.len(),
{
    if k < spans.len() {
        assert(spans.drop_last().take(k) =~= spans.take(k));
        lemma_spans_problem_prefix(spans.drop_last(), k);
    } else {
        assert(spans.take(k) =~= spans);
    }
}

// ---------------------------------------------------------------------------
// Token budgets
// ---------------------------------------------------------------------------
/// The number of characters other than white space.
pub open spec fn visible_chars(s: Seq<char>) -> nat
    decreases s.len(),
{
    if s.len() == 0 {
        0
    } else {
        visible_chars(s.drop_last()) + (if white_space(s.last()) {
            0nat
        } else {
            1nat
        })
    }
}

/// One token for every four visible characters or part of them, and at least one for a text
/// that is not empty. The count of characters is taken modulo the range of `u32`.
pub open spec fn token_cost(s: Seq<char>) -> u32 {
    let counted = visible_chars(s) % 0x1_0000_0000;
    let quarters = (counted + 3) / 4;
    if quarters == 0 && s.len() > 0 {
        1
    } else {
        quarters as u32
    }
}

/// Conservative token estimate for budgeting evidence before it reaches a model.
#[must_use]
pub fn estimate_tokens(text: &str) -> (r: u32)
    ensures
        r == token_cost(text@),
{
    let cs = chars_of(text);
    let mut counted: u64 = 0;
    let mut i: usize = 0;
    proof {
        assert(cs@.take(0) =~= Seq::empty());
    }
    while i < cs.len()
        invariant
            i <= cs@.len(),
            cs@ == text@,
            counted < 0x1_0000_0000,
            counted == visible_chars(cs@.take(i as int)) % 0x1_0000_0000,
        decreases cs.len() - i,
    {
        proof {
            assert(cs@.take(i as int + 1).drop_last() =~= cs@.take(i as int));
            assert(cs@.take(i as int + 1).last() == cs@[i as int]);
        }
        if !is_white_space(cs[i]) {
            counted = (counted + 1) % 0x1_0000_0000;
        }
        i += 1;
    }
    proof {
        assert(cs@.take(i as int) =~= text@);
    }
    let quarters: u64 = (counted + 3) / 4;
    if quarters == 0 && cs.len() > 0 {
        1
    } else {
        quarters as u32
    }
}

/// Evidence with the higher score first.
pub struct ByScore;

impl Ranking<Evidence> for ByScore {
    open spec fn before(a: EvidenceModel, b: EvidenceModel) -> bool {
        a.score > b.score
    }

    fn precedes(a: &Evidence, b: &Evidence) -> (r: bool) {
        a.score > b.score
    }

    proof fn lawful() {
    }
}

/// The tokens of some evidence.
pub open spec fn evidence_tokens(items: Seq<EvidenceModel>) -> int
    decreases items.len(),
{
    if items.len() == 0 {
        0
    } else {
        evidence_tokens(items.drop_last()) + items.last().token_estimate
    }
}

/// The items taken in turn wherever they still fit into the budget.
pub open spec fn fitting_items(items: Seq<EvidenceModel>, max_tokens: u32) -> Seq<EvidenceModel>
    decreases items.len(),
{
    if items.len() == 0 {
        Seq::empty()
    } else {
        let taken = fitting_items(items.drop_last(), max_tokens);
        if evidence_tokens(taken) + items.last().token_estimate <= max_tokens {
            taken.push(items.last())
        } else {
            taken
        }
    }
}

/// The best-scored items that fit into a budget, each taken where it still fits.
pub open spec fn budgeted(evidence: Seq<EvidenceModel>, max_tokens: u32) -> Seq<EvidenceModel> {
    fitting_items(ranked::<Evidence, ByScore>(evidence), max_tokens)
}

/// Selected evidence never costs more than its budget.
pub proof fn budgeted_within_budget(evidence: Seq<EvidenceModel>, max_tokens: u32)
    ensures
        evidence_tokens(budgeted(evidence, max_tokens)) <= max_tokens,
{
    lemma_fitting_items(ranked::<Evidence, ByScore>(evidence), max_tokens);
}

/// Evidence that does fit as a whole is selected as a whole.
pub proof fn budgeted_keeps_what_fits(evidence: Seq<EvidenceModel>, max_tokens: u32)
    requires
        evidence_tokens(ranked::<Evidence, ByScore>(evidence)) <= max_tokens,
    ensures
        budgeted(evidence, max_tokens) == ranked::<Evidence, ByScore>(evidence),
{
    lemma_all_fitting(ranked::<Evidence, ByScore>(evidence), max_tokens);
}

pub proof fn lemma_fitting_items(items: Seq<EvidenceModel>, max_tokens: u32)
    ensures
        evidence_tokens(fitting_items(items, max_tokens)) <= max_tokens,
        evidence_tokens(fitting_items(items, max_tokens)) >= 0,
        forall|x: EvidenceModel|
            #[trigger] fitting_items(items, max_tokens).contains(x) ==> items.contains(x),
    decreases items.len(),
{
    if items.len() > 0 {
        lemma_fitting_items(items.drop_last(), max_tokens);
        let taken = fitting_items(items.drop_last(), max_tokens);
        let out = fitting_items(items, max_tokens);
        assert(taken.push(items.last()).drop_last() =~= taken);
        assert forall|x: EvidenceModel| #[trigger] out.contains(x) implies items.contains(x) by {
            let k = choose|k: int| 0 <= k < out.len() && out[k] == x;
            if k < taken.len() {
                assert(taken[k] == x);
                assert(taken.contains(x));
                let m = choose|m: int|
                    0 <= m < items.drop_last().len() && items.drop_last()[m] == x;
                assert(items[m] == x);
            } else {
                assert(items[items.len() - 1] == x);
            }
        }
    }
}

proof fn lemma_all_fitting(items: Seq<EvidenceModel>, max_tokens: u32)
    requires
        evidence_tokens(items) <= max_tokens,
    ensures
        fitting_items(items, max_tokens) == items,
    decreases items.len(),
{
    if items.len() > 0 {
        lemma_all_fitting(items.drop_last(), max_tokens);
        assert(items =~= items.drop_last().push(items.last()));
    } else {
        assert(items =~= Seq::empty());
    }
}

/// Select highest-scoring evidence that fits within a token budget.
#[must_use]
pub fn budget_evidence(evidence: Vec<Evidence>, max_tokens: u32) -> (r: Vec<Evidence>)
    ensures
        views(r@) == budgeted(views(evidence@), max_tokens),
        evidence_tokens(views(r@)) <= max_tokens,
{
    let sorted = sort_ranked::<Evidence, ByScore>(evidence);
    let ghost all = views(sorted@);
    proof {
        lemma_fitting_items(all, max_tokens);
    }
    let mut selected: Vec<Evidence> = Vec::new();
    let mut used: u32 = 0;
    let mut i: usize = 0;
    proof {
        assert(all.take(0) =~= Seq::empty());
        assert(views(selected@) =~= Seq::empty());
    }
    while i < sorted.len()
        invariant
            i <= sorted@.len(),
            all == views(sorted@),
            views(selected@) == fitting_items(all.take(i as int), max_tokens),
            used == evidence_tokens(views(selected@)),
            used <= max_tokens,
        decreases sorted.len() - i,
    {
        proof {
            assert(all.take(i as int + 1).drop_last() =~= all.take(i as int));
            assert(all.take(i as int + 1).last() == sorted@[i as int]@);
        }
        if sorted[i].token_estimate <= max_tokens - used {
            let ghost before = views(selected@);
            used += sorted[i].token_estimate;
            let item = sorted[i].clone();
            selected.push(item);
            proof {
                assert(views(selected@) =~= before.push(sorted@[i as int]@));
                assert(before.push(sorted@[i as int]@).drop_last() =~= before);
            }
        }
        i += 1;
    }
    proof {
        assert(all.take(i as int) =~= all);
    }
    selected
}

} // verus!
