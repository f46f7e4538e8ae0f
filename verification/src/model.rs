//! The records, selectors, snapshots and lock entries that the graph is made of.
//!
//! JSON values that the library only carries (node attributes, unknown
//! evidence keys) are held as their compact JSON text; an edge's confidence is
//! held as the bit pattern of its floating-point value.

use vstd::prelude::*;
use crate::text::owned;

verus! {

/// Directory, under the project root, that holds the graph's files.
pub const CONFIG_DIR: &'static str = ".project-graph";
/// Default location of the generated SQLite index.
pub const DEFAULT_DB: &'static str = ".project-graph/cache/graph.sqlite";
/// Location of the evidence lock.
pub const LOCK_FILE: &'static str = ".project-graph/evidence-lock.json";
/// Location of the gold questions.
pub const GOLD_FILE: &'static str = ".project-graph/gold-questions.json";
/// Current evidence-lock format version.
pub const LOCK_VERSION: u32 = 3;

/// A copy of an optional string.
pub fn clone_opt(o: &Option<String>) -> (out: Option<String>)
    ensures
        out == *o,
{
    match o {
        Some(s) => Some(s.clone()),
        None => None,
    }
}

/// The project's `schema_version`, which may be any JSON value.
#[derive(Debug)]
pub enum SchemaVersion {
    /// A JSON string, held as its contents.
    Text(String),
    /// Any other JSON value, held as its compact JSON text.
    Json(String),
}

impl Clone for SchemaVersion {
    fn clone(&self) -> (out: Self)
        ensures
            out == *self,
    {
        match self {
            SchemaVersion::Text(s) => SchemaVersion::Text(s.clone()),
            SchemaVersion::Json(s) => SchemaVersion::Json(s.clone()),
        }
    }
}

/// Project configuration (`.project-graph/config.json`).
#[derive(Debug, Clone)]
pub struct Config {
    pub schema_version: SchemaVersion,
    pub project: String,
    pub database: String,
    pub assertion_globs: Vec<String>,
    pub require_edge_evidence: bool,
    pub node_types: Vec<String>,
    pub predicates: Vec<String>,
    pub impact_predicates: Vec<String>,
    pub blocked_paths: Vec<String>,
}

/// A citation of a source span.
#[derive(Debug, Clone)]
pub struct Evidence {
    pub path: String,
    pub start_anchor: Option<String>,
    pub anchor: Option<String>,
    pub end_anchor: Option<String>,
    pub start_occurrence: Option<usize>,
    pub end_occurrence: Option<usize>,
    pub method: Option<String>,
    pub review: Option<String>,
    pub extractor_version: Option<String>,
    /// Keys the format does not define, with their JSON text.
    pub extra: Vec<(String, String)>,
}

/// A node of the graph.
#[derive(Debug, Clone)]
pub struct Node {
    pub id: String,
    pub node_type: String,
    pub name: String,
    pub description: String,
    pub review: String,
    pub evidence: Vec<Evidence>,
    /// JSON text of the node's attributes.
    pub attributes: String,
    pub extra: Vec<(String, String)>,
}

/// A directed, typed edge between two nodes.
#[derive(Debug, Clone)]
pub struct Edge {
    pub id: String,
    pub source: String,
    pub predicate: String,
    pub target: String,
    pub description: String,
    pub review: String,
    /// Bit pattern of the confidence value, when one is given.
    pub confidence_bits: Option<u64>,
    pub valid_from: Option<String>,
    pub valid_to: Option<String>,
    pub evidence: Vec<Evidence>,
    /// JSON text of the edge's attributes.
    pub attributes: String,
    pub extra: Vec<(String, String)>,
}

/// Another name for a node.
#[derive(Debug, Clone)]
pub struct Alias {
    pub alias: String,
    pub node: String,
    pub review: String,
    pub evidence: Vec<Evidence>,
    pub extra: Vec<(String, String)>,
}

/// One assertion: a node, an edge or an alias.
#[derive(Debug, Clone)]
pub enum Record {
    Node(Node),
    Edge(Edge),
    Alias(Alias),
}

impl Record {
    /// `"node"`, `"edge"` or `"alias"`.
    pub open spec fn kind_spec(self) -> Seq<char> {
        match self {
            Record::Node(_) => "node"@,
            Record::Edge(_) => "edge"@,
            Record::Alias(_) => "alias"@,
        }
    }

    /// The identifier the record is about: a node or edge id, or the alias.
    pub open spec fn subject_spec(self) -> Seq<char> {
        match self {
            Record::Node(n) => n.id@,
            Record::Edge(e) => e.id@,
            Record::Alias(a) => a.alias@,
        }
    }

    /// The record's review state.
    pub open spec fn review_spec(self) -> Seq<char> {
        match self {
            Record::Node(n) => n.review@,
            Record::Edge(e) => e.review@,
            Record::Alias(a) => a.review@,
        }
    }

    /// The evidence the record cites.
    pub open spec fn evidence_spec(self) -> Seq<Evidence> {
        match self {
            Record::Node(n) => n.evidence@,
            Record::Edge(e) => e.evidence@,
            Record::Alias(a) => a.evidence@,
        }
    }

    /// `"node"`, `"edge"` or `"alias"`.
    pub fn kind(&self) -> (out: &'static str)
        ensures
            out@ == self.kind_spec(),
    {
        match self {
            Record::Node(_) => "node",
            Record::Edge(_) => "edge",
            Record::Alias(_) => "alias",
        }
    }

    /// The identifier the record is about.
    pub fn subject_id(&self) -> (out: &str)
        ensures
            out@ == self.subject_spec(),
    {
        match self {
            Record::Node(n) => n.id.as_str(),
            Record::Edge(e) => e.id.as_str(),
            Record::Alias(a) => a.alias.as_str(),
        }
    }

    /// The record's review state.
    pub fn review(&self) -> (out: &str)
        ensures
            out@ == self.review_spec(),
    {
        match self {
            Record::Node(n) => n.review.as_str(),
            Record::Edge(e) => e.review.as_str(),
            Record::Alias(a) => a.review.as_str(),
        }
    }

    /// The evidence the record cites.
    pub fn evidence(&self) -> (out: &Vec<Evidence>)
        ensures
            out@ == self.evidence_spec(),
    {
        match self {
            Record::Node(n) => &n.evidence,
            Record::Edge(e) => &e.evidence,
            Record::Alias(a) => &a.evidence,
        }
    }
}

/// A record with the place it was read from.
#[derive(Debug, Clone)]
pub struct LoadedRecord {
    pub record: Record,
    /// Assertion file, relative to the project root, with `/` separators.
    pub origin: String,
    /// One-based line number in that file.
    pub line: usize,
}

/// The anchors that name an evidence span.
#[derive(Debug)]
pub struct EvidenceSelector {
    pub start_anchor: String,
    pub end_anchor: String,
    pub start_occurrence: Option<usize>,
    pub end_occurrence: Option<usize>,
}

impl Clone for EvidenceSelector {
    fn clone(&self) -> (out: Self)
        ensures
            out == *self,
    {
        EvidenceSelector {
            start_anchor: self.start_anchor.clone(),
            end_anchor: self.end_anchor.clone(),
            start_occurrence: self.start_occurrence,
            end_occurrence: self.end_occurrence,
        }
    }
}

/// The anchors of a selector, as character sequences.
pub struct SelectorView {
    pub start_anchor: Seq<char>,
    pub end_anchor: Seq<char>,
    pub start_occurrence: Option<usize>,
    pub end_occurrence: Option<usize>,
}

impl View for EvidenceSelector {
    type V = SelectorView;

    open spec fn view(&self) -> SelectorView {
        SelectorView {
            start_anchor: self.start_anchor@,
            end_anchor: self.end_anchor@,
            start_occurrence: self.start_occurrence,
            end_occurrence: self.end_occurrence,
        }
    }
}

/// A resolved evidence span, as character sequences.
pub struct SnapshotView {
    pub key: Seq<char>,
    pub path: Seq<char>,
    pub selector: SelectorView,
    pub line_start: int,
    pub line_end: int,
    pub file_sha256: Seq<char>,
    pub span_sha256: Seq<char>,
    pub quote: Seq<char>,
}

impl View for EvidenceSnapshot {
    type V = SnapshotView;

    open spec fn view(&self) -> SnapshotView {
        SnapshotView {
            key: self.key@,
            path: self.path@,
            selector: self.selector@,
            line_start: self.line_start as int,
            line_end: self.line_end as int,
            file_sha256: self.file_sha256@,
            span_sha256: self.span_sha256@,
            quote: self.quote@,
        }
    }
}

/// A resolved evidence span.
#[derive(Debug)]
pub struct EvidenceSnapshot {
    pub key: String,
    pub path: String,
    pub selector: EvidenceSelector,
    /// One-based first line of the span.
    pub line_start: usize,
    /// One-based last line of the span.
    pub line_end: usize,
    pub file_sha256: String,
    pub span_sha256: String,
    pub quote: String,
}

impl Clone for EvidenceSnapshot {
    fn clone(&self) -> (out: Self)
        ensures
            out == *self,
    {
        EvidenceSnapshot {
            key: self.key.clone(),
            path: self.path.clone(),
            selector: self.selector.clone(),
            line_start: self.line_start,
            line_end: self.line_end,
            file_sha256: self.file_sha256.clone(),
            span_sha256: self.span_sha256.clone(),
            quote: self.quote.clone(),
        }
    }
}

/// Repository context captured when a lock was accepted.
#[derive(Debug)]
pub struct GitContext {
    pub head: String,
    pub tree: String,
    pub branch: Option<String>,
    pub worktree_clean: bool,
}

impl Clone for GitContext {
    fn clone(&self) -> (out: Self)
        ensures
            out == *self,
    {
        GitContext {
            head: self.head.clone(),
            tree: self.tree.clone(),
            branch: clone_opt(&self.branch),
            worktree_clean: self.worktree_clean,
        }
    }
}

/// An accepted evidence span.
#[derive(Debug)]
pub struct LockedEvidence {
    pub path: String,
    pub selector: EvidenceSelector,
    pub span_sha256: String,
}

impl Clone for LockedEvidence {
    fn clone(&self) -> (out: Self)
        ensures
            out == *self,
    {
        LockedEvidence {
            path: self.path.clone(),
            selector: self.selector.clone(),
            span_sha256: self.span_sha256.clone(),
        }
    }
}

/// The evidence lock: accepted spans by evidence key, in increasing key order.
#[derive(Debug, Clone)]
pub struct EvidenceLock {
    pub version: u32,
    pub updated_at: Option<String>,
    pub git: Option<GitContext>,
    pub evidence: Vec<(String, LockedEvidence)>,
}

/// The deterministic checks of `.project-graph/gold-questions.json`.
#[derive(Debug, Clone)]
pub struct GoldFile {
    pub version: u32,
    pub questions: Vec<GoldQuestion>,
}

/// A retrieval check: traversing from the seeds must reach the expected nodes.
#[derive(Debug, Clone)]
pub struct GoldQuestion {
    pub question: String,
    pub seeds: Vec<String>,
    pub depth: usize,
    pub direction: String,
    pub predicates: Option<Vec<String>>,
    pub expected_nodes: Vec<String>,
}

/// Row counts of a built index.
#[derive(Debug, Clone, Copy)]
pub struct BuildCounts {
    pub nodes: usize,
    pub edges: usize,
    pub aliases: usize,
    pub evidence: usize,
    pub reused: bool,
}

impl BuildCounts {
    /// All counts zero, not reused.
    pub fn zero() -> (out: Self)
        ensures
            out.nodes == 0 && out.edges == 0 && out.aliases == 0 && out.evidence == 0 && !out.reused,
    {
        BuildCounts { nodes: 0, edges: 0, aliases: 0, evidence: 0, reused: false }
    }
}

/// The project root and the files that initialization created.
#[derive(Debug, Clone)]
pub struct InitializedProject {
    pub root: String,
    pub created: Vec<String>,
}

/// A traversal direction along edges.
#[derive(Debug, Clone, Copy, PartialEq, Eq, Structural)]
pub enum Direction {
    In,
    Out,
    Both,
}

impl Direction {
    /// `"in"`, `"out"` or `"both"`.
    pub open spec fn name(self) -> Seq<char> {
        match self {
            Direction::In => "in"@,
            Direction::Out => "out"@,
            Direction::Both => "both"@,
        }
    }

    /// `"in"`, `"out"` or `"both"`.
    pub fn as_str(self) -> (out: &'static str)
        ensures
            out@ == self.name(),
    {
        match self {
            Direction::In => "in",
            Direction::Out => "out",
            Direction::Both => "both",
        }
    }
}

/// Default `assertion_globs` of a configuration.
pub fn default_assertion_globs() -> (out: Vec<String>)
    ensures
        out@.len() == 1,
        out@[0]@ == ".project-graph/assertions/*.jsonl"@,
{
    let mut out = Vec::new();
    out.push(owned(".project-graph/assertions/*.jsonl"));
    out
}

/// Default `database` of a configuration.
pub fn default_database() -> (out: String)
    ensures
        out@ == DEFAULT_DB@,
{
    owned(DEFAULT_DB)
}

/// Default of boolean options that are on unless switched off.
pub fn default_true() -> (out: bool)
    ensures
        out,
{
    true
}

/// Default review state of a record.
pub fn default_review() -> (out: String)
    ensures
        out@ == "reviewed"@,
{
    owned("reviewed")
}

/// Default lock version: the current one.
pub fn lock_version() -> (out: u32)
    ensures
        out == LOCK_VERSION,
{
    LOCK_VERSION
}

/// Default traversal depth of a gold question.
pub fn default_depth() -> (out: usize)
    ensures
        out == 2,
{
    2
}

/// Default traversal direction of a gold question.
pub fn default_direction() -> (out: String)
    ensures
        out@ == "both"@,
{
    owned("both")
}

} // verus!
