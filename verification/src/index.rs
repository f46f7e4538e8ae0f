//! The SQLite index: its schema, the fingerprint that decides whether a built
//! index can be reused, and the rows a build writes.

use vstd::prelude::*;
use vstd::utf8::encode_utf8;
use crate::error::GraphError;
use crate::evidence::{
    evidence_key, evidence_selector, json_count, json_quote, json_string, key_spec,
    push_json_count, selector_spec, SourceTable,
};
use crate::hash::{hex_lower, sha256, sha256_hex};
use crate::keyed::{keyed_get, map_view};
use crate::lock::{locked_span, snapshot_status, status_spec};
use crate::model::{
    Config, EvidenceLock, EvidenceSelector, EvidenceSnapshot, LoadedRecord, LockedEvidence, Record,
    SchemaVersion, SelectorView,
};
use crate::text::{owned, push_str};

verus! {

/// The schema of the index. It also takes part in the fingerprint, so that a
/// binary with a different schema never reuses an index of the old layout.
pub const SCHEMA_SQL: &'static str = "
PRAGMA foreign_keys = ON;
CREATE TABLE meta (key TEXT PRIMARY KEY, value TEXT NOT NULL);
CREATE TABLE nodes (
    id TEXT PRIMARY KEY,
    type TEXT NOT NULL,
    name TEXT NOT NULL,
    description TEXT NOT NULL DEFAULT '',
    review TEXT NOT NULL CHECK (review = 'reviewed'),
    attributes_json TEXT NOT NULL
);
CREATE TABLE aliases (
    alias TEXT PRIMARY KEY COLLATE NOCASE,
    node_id TEXT NOT NULL REFERENCES nodes(id) ON DELETE CASCADE
);
CREATE TABLE edges (
    id TEXT PRIMARY KEY,
    source_id TEXT NOT NULL REFERENCES nodes(id),
    predicate TEXT NOT NULL,
    target_id TEXT NOT NULL REFERENCES nodes(id),
    description TEXT NOT NULL DEFAULT '',
    review TEXT NOT NULL CHECK (review = 'reviewed'),
    confidence REAL,
    valid_from TEXT,
    valid_to TEXT,
    attributes_json TEXT NOT NULL
);
CREATE TABLE evidence (
    id INTEGER PRIMARY KEY AUTOINCREMENT,
    subject_kind TEXT NOT NULL,
    subject_id TEXT NOT NULL,
    path TEXT NOT NULL,
    selector_json TEXT NOT NULL,
    line_start INTEGER NOT NULL,
    line_end INTEGER NOT NULL,
    method TEXT NOT NULL,
    review TEXT NOT NULL CHECK (review = 'reviewed'),
    extractor_version TEXT,
    lock_status TEXT NOT NULL,
    locked_span_sha256 TEXT,
    actual_span_sha256 TEXT NOT NULL,
    file_sha256 TEXT NOT NULL,
    quote TEXT NOT NULL
);
CREATE INDEX edges_source_idx ON edges(source_id);
CREATE INDEX edges_target_idx ON edges(target_id);
CREATE INDEX edges_predicate_idx ON edges(predicate);
CREATE INDEX evidence_subject_idx ON evidence(subject_kind, subject_id);
CREATE INDEX evidence_status_idx ON evidence(lock_status);
CREATE VIRTUAL TABLE search_index USING fts5(
    kind UNINDEXED,
    graph_id UNINDEXED,
    text,
    tokenize = 'porter unicode61 remove_diacritics 2'
);
";

/// The eight little-endian bytes of `n`.
pub open spec fn le_bytes(n: nat, k: nat) -> Seq<u8>
    decreases k,
{
    if k == 0 {
        seq![]
    } else {
        seq![(n % 256) as u8] + le_bytes(n / 256, (k - 1) as nat)
    }
}

/// One part of the fingerprint: the label, a zero byte, the value's length
/// as eight little-endian bytes, the value, and a zero byte.
pub open spec fn part_bytes(label: Seq<char>, value: Seq<u8>) -> Seq<u8> {
    encode_utf8(label) + seq![0u8] + le_bytes(value.len(), 8) + value + seq![0u8]
}

/// The parts of a sequence of labelled values, in order.
pub open spec fn parts_bytes(parts: Seq<(Seq<char>, Seq<u8>)>) -> Seq<u8>
    decreases parts.len(),
{
    if parts.len() == 0 {
        seq![]
    } else {
        parts_bytes(parts.drop_last()) + part_bytes(parts.last().0, parts.last().1)
    }
}

/// The labelled values of the assertion files.
pub open spec fn assertion_parts(files: Seq<(String, Vec<u8>)>) -> Seq<(Seq<char>, Seq<u8>)> {
    files.map_values(|f: (String, Vec<u8>)| ("assertion:"@ + f.0@, f.1@))
}

/// The labelled values of the resolved snapshots: file and span digests.
pub open spec fn snapshot_parts(snaps: Seq<(String, EvidenceSnapshot)>) -> Seq<(Seq<char>, Seq<u8>)>
    decreases snaps.len(),
{
    if snaps.len() == 0 {
        seq![]
    } else {
        snapshot_parts(snaps.drop_last()) + seq![
            ("snapshot:"@ + snaps.last().0@, encode_utf8(snaps.last().1.file_sha256@)),
            ("span:"@ + snaps.last().0@, encode_utf8(snaps.last().1.span_sha256@)),
        ]
    }
}

/// The labelled values of the lock's accepted spans.
pub open spec fn lock_parts(entries: Seq<(String, LockedEvidence)>) -> Seq<(Seq<char>, Seq<u8>)> {
    entries.map_values(|e: (String, LockedEvidence)| ("lock:"@ + e.0@, encode_utf8(e.1.span_sha256@)))
}

/// Everything a build depends on: the schema, the configuration file, the
/// assertion files, the resolved spans and the lock.
pub open spec fn fingerprint_parts(
    config: Seq<u8>,
    files: Seq<(String, Vec<u8>)>,
    snaps: Seq<(String, EvidenceSnapshot)>,
    entries: Seq<(String, LockedEvidence)>,
) -> Seq<(Seq<char>, Seq<u8>)> {
    seq![("schema"@, encode_utf8(SCHEMA_SQL@)), ("config"@, config)] + assertion_parts(files) + snapshot_parts(
        snaps,
    ) + lock_parts(entries)
}

/// The build fingerprint: the SHA-256 digest of all parts, in hexadecimal.
pub open spec fn fingerprint_spec(
    config: Seq<u8>,
    files: Seq<(String, Vec<u8>)>,
    snaps: Seq<(String, EvidenceSnapshot)>,
    entries: Seq<(String, LockedEvidence)>,
) -> Seq<char> {
    hex_lower(sha256(parts_bytes(fingerprint_parts(config, files, snaps, entries))))
}

/// Appends bytes.
fn extend_bytes(out: &mut Vec<u8>, data: &[u8])
    ensures
        final(out)@ == old(out)@ + data@,
{
    let ghost before = out@;
    let mut i: usize = 0;
    while i < data.len()
        invariant
            i <= data.len(),
            out@ == before + data@.take(i as int),
        decreases data.len() - i,
    {
        out.push(data[i]);
        assert(data@.take(i + 1) =~= data@.take(i as int).push(data@[i as int]));
        i = i + 1;
    }
    assert(data@.take(data.len() as int) =~= data@);
}

/// Appends one labelled part.
fn push_part(out: &mut Vec<u8>, label: &str, value: &[u8])
    ensures
        final(out)@ == old(out)@ + part_bytes(label@, value@),
{
    let ghost before = out@;
    extend_bytes(out, label.as_bytes());
    out.push(0u8);
    let mut n: usize = value.len();
    let mut k: usize = 0;
    let ghost mid = out@;
    assert(le_bytes(value@.len(), 8) == seq![] + le_bytes(n as nat, 8));
    while k < 8
        invariant
            k <= 8,
            out@ + le_bytes(n as nat, (8 - k) as nat) == mid + le_bytes(value@.len(), 8),
        decreases 8 - k,
    {
        let byte = (n % 256) as u8;
        let ghost rest = le_bytes(n as nat / 256, (8 - k - 1) as nat);
        assert(le_bytes(n as nat, (8 - k) as nat) == seq![byte] + rest);
        out.push(byte);
        assert(out@ + rest =~= mid + le_bytes(value@.len(), 8));
        n = n / 256;
        k = k + 1;
    }
    assert(out@ =~= mid + le_bytes(value@.len(), 8));
    extend_bytes(out, value);
    out.push(0u8);
    assert(out@ =~= before + part_bytes(label@, value@));
}

/// `prefix` followed by `s`.
fn prefixed(prefix: &str, s: &str) -> (out: String)
    ensures
        out@ == prefix@ + s@,
{
    let mut out = owned(prefix);
    push_str(&mut out, s);
    out
}

/// The fingerprint of everything a build depends on. The configuration file
/// and the assertion files (with their project-relative paths) are given as
/// bytes.
pub fn build_fingerprint(
    config: &[u8],
    assertions: &Vec<(String, Vec<u8>)>,
    snapshots: &Vec<(String, EvidenceSnapshot)>,
    lock: &EvidenceLock,
) -> (out: String)
    ensures
        out@ == fingerprint_spec(config@, assertions@, snapshots@, lock.evidence@),
{
    let ghost parts = fingerprint_parts(config@, assertions@, snapshots@, lock.evidence@);
    let mut stream: Vec<u8> = Vec::new();
    push_part(&mut stream, "schema", SCHEMA_SQL.as_bytes());
    push_part(&mut stream, "config", config);
    let ghost head = seq![("schema"@, encode_utf8(SCHEMA_SQL@)), ("config"@, config@)];
    assert(parts_bytes(head) =~= stream@) by {
        let one = seq![("schema"@, encode_utf8(SCHEMA_SQL@))];
        assert(head.drop_last() =~= one);
        assert(one.drop_last() =~= Seq::<(Seq<char>, Seq<u8>)>::empty());
        assert(parts_bytes(one.drop_last()) == Seq::<u8>::empty());
        assert(parts_bytes(one) =~= part_bytes("schema"@, encode_utf8(SCHEMA_SQL@)));
        assert(parts_bytes(head) =~= part_bytes("schema"@, encode_utf8(SCHEMA_SQL@)) + part_bytes("config"@, config@));
    }
    let mut i: usize = 0;
    while i < assertions.len()
        invariant
            i <= assertions@.len(),
            stream@ == parts_bytes(head + assertion_parts(assertions@).take(i as int)),
        decreases assertions.len() - i,
    {
        let label = prefixed("assertion:", assertions[i].0.as_str());
        push_part(&mut stream, label.as_str(), assertions[i].1.as_slice());
        assert((head + assertion_parts(assertions@).take(i + 1)).drop_last() =~= head + assertion_parts(assertions@).take(i as int));
        i = i + 1;
    }
    let ghost after_files = head + assertion_parts(assertions@);
    assert(assertion_parts(assertions@).take(assertions@.len() as int) =~= assertion_parts(assertions@));
    let mut j: usize = 0;
    while j < snapshots.len()
        invariant
            j <= snapshots@.len(),
            stream@ == parts_bytes(after_files + snapshot_parts(snapshots@.take(j as int))),
        decreases snapshots.len() - j,
    {
        let key = snapshots[j].0.as_str();
        let snap = &snapshots[j].1;
        let ghost before = after_files + snapshot_parts(snapshots@.take(j as int));
        let label = prefixed("snapshot:", key);
        push_part(&mut stream, label.as_str(), snap.file_sha256.as_str().as_bytes());
        let label = prefixed("span:", key);
        push_part(&mut stream, label.as_str(), snap.span_sha256.as_str().as_bytes());
        let ghost one = before.push(("snapshot:"@ + key@, encode_utf8(snap.file_sha256@)));
        let ghost two = one.push(("span:"@ + key@, encode_utf8(snap.span_sha256@)));
        assert(two.drop_last() =~= one);
        assert(one.drop_last() =~= before);
        assert(snapshots@.take(j + 1).drop_last() =~= snapshots@.take(j as int));
        assert(snapshots@.take(j + 1).last() == snapshots@[j as int]);
        assert(after_files + snapshot_parts(snapshots@.take(j + 1)) =~= two);
        assert(parts_bytes(one) == parts_bytes(before) + part_bytes("snapshot:"@ + key@, encode_utf8(snap.file_sha256@)));
        assert(parts_bytes(two) == parts_bytes(one) + part_bytes("span:"@ + key@, encode_utf8(snap.span_sha256@)));
        j = j + 1;
    }
    let ghost after_snaps = after_files + snapshot_parts(snapshots@);
    assert(snapshots@.take(snapshots@.len() as int) =~= snapshots@);
    let mut k: usize = 0;
    while k < lock.evidence.len()
        invariant
            k <= lock.evidence@.len(),
            stream@ == parts_bytes(after_snaps + lock_parts(lock.evidence@).take(k as int)),
        decreases lock.evidence.len() - k,
    {
        let label = prefixed("lock:", lock.evidence[k].0.as_str());
        push_part(&mut stream, label.as_str(), lock.evidence[k].1.span_sha256.as_str().as_bytes());
        assert((after_snaps + lock_parts(lock.evidence@).take(k + 1)).drop_last() =~= after_snaps + lock_parts(lock.evidence@).take(k as int));
        k = k + 1;
    }
    assert(lock_parts(lock.evidence@).take(lock.evidence@.len() as int) =~= lock_parts(lock.evidence@));
    assert(parts =~= after_snaps + lock_parts(lock.evidence@));
    sha256_hex(stream.as_slice())
}

/// A row of the `nodes` table.
#[derive(Debug, Clone)]
pub struct NodeRow {
    pub id: String,
    pub node_type: String,
    pub name: String,
    pub description: String,
    pub review: String,
    pub attributes_json: String,
}

/// A row of the `aliases` table.
#[derive(Debug, Clone)]
pub struct AliasRow {
    pub alias: String,
    pub node_id: String,
}

/// A row of the `edges` table.
#[derive(Debug, Clone)]
pub struct EdgeRow {
    pub id: String,
    pub source_id: String,
    pub predicate: String,
    pub target_id: String,
    pub description: String,
    pub review: String,
    pub confidence_bits: Option<u64>,
    pub valid_from: Option<String>,
    pub valid_to: Option<String>,
    pub attributes_json: String,
}

/// A row of the full-text `search_index` table.
#[derive(Debug, Clone)]
pub struct SearchRow {
    pub kind: String,
    pub graph_id: String,
    pub text: String,
}

/// A row of the `evidence` table.
#[derive(Debug, Clone)]
pub struct EvidenceRow {
    pub subject_kind: String,
    pub subject_id: String,
    pub path: String,
    pub selector_json: String,
    pub line_start: usize,
    pub line_end: usize,
    pub method: String,
    pub review: String,
    pub extractor_version: Option<String>,
    pub lock_status: String,
    pub locked_span_sha256: Option<String>,
    pub actual_span_sha256: String,
    pub file_sha256: String,
    pub quote: String,
}

/// The view of an optional string.
pub open spec fn ov(o: Option<String>) -> Option<Seq<char>> {
    match o {
        Some(s) => Some(s@),
        None => None,
    }
}

/// A copy of an optional string.
fn copy_opt(o: &Option<String>) -> (out: Option<String>)
    ensures
        ov(out) == ov(*o),
{
    match o {
        Some(s) => Some(s.clone()),
        None => None,
    }
}

/// The nodes among the first `n` records, in order.
pub open spec fn nodes_of(recs: Seq<LoadedRecord>, n: nat) -> Seq<crate::model::Node>
    decreases n,
{
    if n == 0 {
        seq![]
    } else {
        nodes_of(recs, (n - 1) as nat) + match recs[n - 1].record {
            Record::Node(node) => seq![node],
            _ => seq![],
        }
    }
}

/// The aliases among the first `n` records, in order.
pub open spec fn aliases_of(recs: Seq<LoadedRecord>, n: nat) -> Seq<crate::model::Alias>
    decreases n,
{
    if n == 0 {
        seq![]
    } else {
        aliases_of(recs, (n - 1) as nat) + match recs[n - 1].record {
            Record::Alias(a) => seq![a],
            _ => seq![],
        }
    }
}

/// The edges among the first `n` records, in order.
pub open spec fn edges_of(recs: Seq<LoadedRecord>, n: nat) -> Seq<crate::model::Edge>
    decreases n,
{
    if n == 0 {
        seq![]
    } else {
        edges_of(recs, (n - 1) as nat) + match recs[n - 1].record {
            Record::Edge(e) => seq![e],
            _ => seq![],
        }
    }
}

/// The name of the last node with this id, or nothing.
pub open spec fn node_name(nodes: Seq<crate::model::Node>, id: Seq<char>) -> Seq<char>
    decreases nodes.len(),
{
    if nodes.len() == 0 {
        seq![]
    } else if nodes.last().id@ == id {
        nodes.last().name@
    } else {
        node_name(nodes.drop_last(), id)
    }
}

/// A node's row.
pub open spec fn node_row_spec(row: NodeRow, n: crate::model::Node) -> bool {
    &&& row.id@ == n.id@
    &&& row.node_type@ == n.node_type@
    &&& row.name@ == n.name@
    &&& row.description@ == n.description@
    &&& row.review@ == n.review@
    &&& row.attributes_json@ == n.attributes@
}

/// A node's search text: id, type, name and description.
pub open spec fn node_text(n: crate::model::Node) -> Seq<char> {
    n.id@ + " "@ + n.node_type@ + " "@ + n.name@ + " "@ + n.description@
}

/// An edge's row.
pub open spec fn edge_row_spec(row: EdgeRow, e: crate::model::Edge) -> bool {
    &&& row.id@ == e.id@
    &&& row.source_id@ == e.source@
    &&& row.predicate@ == e.predicate@
    &&& row.target_id@ == e.target@
    &&& row.description@ == e.description@
    &&& row.review@ == e.review@
    &&& row.confidence_bits == e.confidence_bits
    &&& ov(row.valid_from) == ov(e.valid_from)
    &&& ov(row.valid_to) == ov(e.valid_to)
    &&& row.attributes_json@ == e.attributes@
}

/// An edge's search text: id, predicate, description, and each endpoint with
/// its node's name.
pub open spec fn edge_text(nodes: Seq<crate::model::Node>, e: crate::model::Edge) -> Seq<char> {
    e.id@ + " "@ + e.predicate@ + " "@ + e.description@ + " "@ + e.source@ + " "@ + node_name(nodes, e.source@)
        + " "@ + e.target@ + " "@ + node_name(nodes, e.target@)
}

/// The search rows of a build: nodes, then aliases, then edges.
pub open spec fn search_spec(recs: Seq<LoadedRecord>) -> Seq<(Seq<char>, Seq<char>, Seq<char>)> {
    let nodes = nodes_of(recs, recs.len());
    nodes.map_values(|n: crate::model::Node| ("node"@, n.id@, node_text(n))) + aliases_of(recs, recs.len()).map_values(
        |a: crate::model::Alias| ("alias"@, a.node@, a.alias@),
    ) + edges_of(recs, recs.len()).map_values(|e: crate::model::Edge| ("edge"@, e.id@, edge_text(nodes, e)))
}

/// Every node record among the first `n` is among the nodes of the first `n`.
proof fn lemma_node_listed(recs: Seq<LoadedRecord>, n: nat, i: int)
    requires
        0 <= i < n <= recs.len(),
        recs[i].record is Node,
    ensures
        exists|k: int| 0 <= k < nodes_of(recs, n).len() && nodes_of(recs, n)[k] == recs[i].record->Node_0,
    decreases n,
{
    let prev = nodes_of(recs, (n - 1) as nat);
    if i < n - 1 {
        lemma_node_listed(recs, (n - 1) as nat, i);
        let k = choose|k: int| 0 <= k < prev.len() && prev[k] == recs[i].record->Node_0;
        assert(nodes_of(recs, n)[k] == prev[k]);
    } else {
        assert(nodes_of(recs, n)[prev.len() as int] == recs[i].record->Node_0);
    }
}

/// Each node is searchable by every part of it: its search row holds the
/// node's id, type, name and description, joined by single spaces, so the
/// description is the end of the text and every word of it is indexed.
pub proof fn law_node_search_text_holds_description(recs: Seq<LoadedRecord>, i: int)
    requires
        0 <= i < recs.len(),
        recs[i].record is Node,
    ensures
        exists|k: int|
            0 <= k < search_spec(recs).len() && {
                let row = #[trigger] search_spec(recs)[k];
                let n = recs[i].record->Node_0;
                &&& row.0 == "node"@
                &&& row.1 == n.id@
                &&& row.2 == n.id@ + " "@ + n.node_type@ + " "@ + n.name@ + " "@ + n.description@
                &&& row.2.subrange(row.2.len() - n.description@.len(), row.2.len() as int) == n.description@
            },
{
    lemma_node_listed(recs, recs.len(), i);
    let nodes = nodes_of(recs, recs.len());
    let k = choose|k: int| 0 <= k < nodes.len() && nodes[k] == recs[i].record->Node_0;
    let n = recs[i].record->Node_0;
    let first = nodes.map_values(|m: crate::model::Node| ("node"@, m.id@, node_text(m)));
    assert(search_spec(recs)[k] == first[k]);
    let t = node_text(n);
    let head = n.id@ + " "@ + n.node_type@ + " "@ + n.name@ + " "@;
    assert(t == head + n.description@);
    assert(t.subrange(t.len() - n.description@.len(), t.len() as int) =~= n.description@);
}

/// The view of a search row.
pub open spec fn search_view(r: SearchRow) -> (Seq<char>, Seq<char>, Seq<char>) {
    (r.kind@, r.graph_id@, r.text@)
}

/// `a b`: two strings joined by a space.
fn spaced(out: &mut String, next: &str)
    ensures
        final(out)@ == old(out)@ + " "@ + next@,
{
    push_str(out, " ");
    push_str(out, next);
}

/// The name of the last node with this id, or nothing.
fn find_node_name(nodes: &Vec<NodeRow>, id: &str, Ghost(ns): Ghost<Seq<crate::model::Node>>) -> (out: String)
    requires
        ns.len() == nodes@.len(),
        forall|k: int| 0 <= k < ns.len() ==> node_row_spec(#[trigger] nodes@[k], ns[k]),
    ensures
        out@ == node_name(ns, id@),
{
    let mut i: usize = nodes.len();
    assert(ns.take(ns.len() as int) =~= ns);
    while i > 0
        invariant
            i <= nodes@.len(),
            ns.len() == nodes@.len(),
            forall|k: int| 0 <= k < ns.len() ==> node_row_spec(#[trigger] nodes@[k], ns[k]),
            node_name(ns, id@) == node_name(ns.take(i as int), id@),
        decreases i,
    {
        assert(node_row_spec(nodes@[i - 1], ns[i - 1]));
        assert(ns.take(i as int).last() == ns[i - 1]);
        if crate::text::str_eq(nodes[i - 1].id.as_str(), id) {
            return nodes[i - 1].name.clone();
        }
        assert(ns.take(i as int).drop_last() =~= ns.take(i - 1));
        i = i - 1;
    }
    String::new()
}

/// The rows of the node, alias and edge tables and of the search index.
#[derive(Debug, Clone)]
pub struct GraphRows {
    pub nodes: Vec<NodeRow>,
    pub aliases: Vec<AliasRow>,
    pub edges: Vec<EdgeRow>,
    pub search: Vec<SearchRow>,
}

/// The rows of the node, alias and edge tables, and the search rows: each
/// node by id, type, name and description; each alias under its node; each
/// edge by id, predicate, description and its endpoints with their names.
pub fn graph_rows(records: &Vec<LoadedRecord>) -> (out: GraphRows)
    ensures
        out.nodes@.len() == nodes_of(records@, records@.len()).len(),
        forall|k: int| 0 <= k < out.nodes@.len() ==> node_row_spec(#[trigger] out.nodes@[k], nodes_of(records@, records@.len())[k]),
        out.aliases@.len() == aliases_of(records@, records@.len()).len(),
        forall|k: int|
            0 <= k < out.aliases@.len() ==> (#[trigger] out.aliases@[k]).alias@ == aliases_of(records@, records@.len())[k].alias@
                && out.aliases@[k].node_id@ == aliases_of(records@, records@.len())[k].node@,
        out.edges@.len() == edges_of(records@, records@.len()).len(),
        forall|k: int| 0 <= k < out.edges@.len() ==> edge_row_spec(#[trigger] out.edges@[k], edges_of(records@, records@.len())[k]),
        out.search@.map_values(|r: SearchRow| search_view(r)) == search_spec(records@),
{
    let ghost recs = records@;
    let mut nodes: Vec<NodeRow> = Vec::new();
    let mut aliases: Vec<AliasRow> = Vec::new();
    let mut edges: Vec<EdgeRow> = Vec::new();
    let mut i: usize = 0;
    while i < records.len()
        invariant
            recs == records@,
            i <= recs.len(),
            nodes@.len() == nodes_of(recs, i as nat).len(),
            forall|k: int| 0 <= k < nodes@.len() ==> node_row_spec(#[trigger] nodes@[k], nodes_of(recs, i as nat)[k]),
            aliases@.len() == aliases_of(recs, i as nat).len(),
            forall|k: int|
                0 <= k < aliases@.len() ==> (#[trigger] aliases@[k]).alias@ == aliases_of(recs, i as nat)[k].alias@
                    && aliases@[k].node_id@ == aliases_of(recs, i as nat)[k].node@,
            edges@.len() == edges_of(recs, i as nat).len(),
            forall|k: int| 0 <= k < edges@.len() ==> edge_row_spec(#[trigger] edges@[k], edges_of(recs, i as nat)[k]),
        decreases records.len() - i,
    {
        match &records[i].record {
            Record::Node(n) => {
                nodes.push(NodeRow {
                    id: n.id.clone(),
                    node_type: n.node_type.clone(),
                    name: n.name.clone(),
                    description: n.description.clone(),
                    review: n.review.clone(),
                    attributes_json: n.attributes.clone(),
                });
            },
            Record::Alias(a) => {
                aliases.push(AliasRow { alias: a.alias.clone(), node_id: a.node.clone() });
            },
            Record::Edge(e) => {
                edges.push(EdgeRow {
                    id: e.id.clone(),
                    source_id: e.source.clone(),
                    predicate: e.predicate.clone(),
                    target_id: e.target.clone(),
                    description: e.description.clone(),
                    review: e.review.clone(),
                    confidence_bits: e.confidence_bits,
                    valid_from: copy_opt(&e.valid_from),
                    valid_to: copy_opt(&e.valid_to),
                    attributes_json: e.attributes.clone(),
                });
            },
        }
        i = i + 1;
    }
    let ghost ns = nodes_of(recs, recs.len());
    let mut search: Vec<SearchRow> = Vec::new();
    let mut k: usize = 0;
    while k < nodes.len()
        invariant
            ns == nodes_of(recs, recs.len()),
            nodes@.len() == ns.len(),
            forall|j: int| 0 <= j < nodes@.len() ==> node_row_spec(#[trigger] nodes@[j], ns[j]),
            k <= nodes@.len(),
            search@.map_values(|r: SearchRow| search_view(r)) == ns.take(k as int).map_values(
                |n: crate::model::Node| ("node"@, n.id@, node_text(n)),
            ),
        decreases nodes.len() - k,
    {
        let n = &nodes[k];
        assert(node_row_spec(nodes@[k as int], ns[k as int]));
        let mut text = n.id.clone();
        spaced(&mut text, n.node_type.as_str());
        spaced(&mut text, n.name.as_str());
        spaced(&mut text, n.description.as_str());
        let ghost before = search@;
        let row = SearchRow { kind: owned("node"), graph_id: n.id.clone(), text };
        assert(search_view(row) == ("node"@, ns[k as int].id@, node_text(ns[k as int])));
        assert(ns.take(k + 1).map_values(|n: crate::model::Node| ("node"@, n.id@, node_text(n))) =~= ns.take(k as int).map_values(
            |n: crate::model::Node| ("node"@, n.id@, node_text(n)),
        ).push(("node"@, ns[k as int].id@, node_text(ns[k as int]))));
        search.push(row);
        assert(search@.map_values(|r: SearchRow| search_view(r)) =~= ns.take(k + 1).map_values(
            |n: crate::model::Node| ("node"@, n.id@, node_text(n)),
        )) by {
            assert(before.map_values(|r: SearchRow| search_view(r)) =~= ns.take(k as int).map_values(
                |n: crate::model::Node| ("node"@, n.id@, node_text(n)),
            ));
        }
        k = k + 1;
    }
    assert(ns.take(ns.len() as int) =~= ns);
    let ghost first = search@.map_values(|r: SearchRow| search_view(r));
    let ghost al = aliases_of(recs, recs.len());
    let mut k: usize = 0;
    assert(search@.map_values(|r: SearchRow| search_view(r)) =~= first + al.take(0).map_values(
        |a: crate::model::Alias| ("alias"@, a.node@, a.alias@),
    ));
    while k < aliases.len()
        invariant
            al == aliases_of(recs, recs.len()),
            aliases@.len() == al.len(),
            forall|j: int|
                0 <= j < aliases@.len() ==> (#[trigger] aliases@[j]).alias@ == al[j].alias@ && aliases@[j].node_id@
                    == al[j].node@,
            k <= aliases@.len(),
            search@.map_values(|r: SearchRow| search_view(r)) == first + al.take(k as int).map_values(
                |a: crate::model::Alias| ("alias"@, a.node@, a.alias@),
            ),
        decreases aliases.len() - k,
    {
        let a = &aliases[k];
        let ghost before = search@;
        let row = SearchRow { kind: owned("alias"), graph_id: a.node_id.clone(), text: a.alias.clone() };
        assert(search_view(row) == ("alias"@, al[k as int].node@, al[k as int].alias@));
        assert(al.take(k + 1).map_values(|a: crate::model::Alias| ("alias"@, a.node@, a.alias@)) =~= al.take(k as int).map_values(
            |a: crate::model::Alias| ("alias"@, a.node@, a.alias@),
        ).push(("alias"@, al[k as int].node@, al[k as int].alias@)));
        search.push(row);
        assert(search@.map_values(|r: SearchRow| search_view(r)) =~= before.map_values(|r: SearchRow| search_view(r)).push(search_view(row)));
        assert(search@.map_values(|r: SearchRow| search_view(r)) =~= first + al.take(k + 1).map_values(
            |a: crate::model::Alias| ("alias"@, a.node@, a.alias@),
        )) by {
            assert(before.map_values(|r: SearchRow| search_view(r)) =~= first + al.take(k as int).map_values(
                |a: crate::model::Alias| ("alias"@, a.node@, a.alias@),
            ));
        }
        k = k + 1;
    }
    assert(al.take(al.len() as int) =~= al);
    let ghost second = search@.map_values(|r: SearchRow| search_view(r));
    let ghost es = edges_of(recs, recs.len());
    let mut k: usize = 0;
    assert(search@.map_values(|r: SearchRow| search_view(r)) =~= second + es.take(0).map_values(
        |e: crate::model::Edge| ("edge"@, e.id@, edge_text(ns, e)),
    ));
    while k < edges.len()
        invariant
            ns == nodes_of(recs, recs.len()),
            nodes@.len() == ns.len(),
            forall|j: int| 0 <= j < nodes@.len() ==> node_row_spec(#[trigger] nodes@[j], ns[j]),
            es == edges_of(recs, recs.len()),
            edges@.len() == es.len(),
            forall|j: int| 0 <= j < edges@.len() ==> edge_row_spec(#[trigger] edges@[j], es[j]),
            k <= edges@.len(),
            search@.map_values(|r: SearchRow| search_view(r)) == second + es.take(k as int).map_values(
                |e: crate::model::Edge| ("edge"@, e.id@, edge_text(ns, e)),
            ),
        decreases edges.len() - k,
    {
        let e = &edges[k];
        assert(edge_row_spec(edges@[k as int], es[k as int]));
        let mut text = e.id.clone();
        spaced(&mut text, e.predicate.as_str());
        spaced(&mut text, e.description.as_str());
        spaced(&mut text, e.source_id.as_str());
        let sname = find_node_name(&nodes, e.source_id.as_str(), Ghost(ns));
        spaced(&mut text, sname.as_str());
        spaced(&mut text, e.target_id.as_str());
        let tname = find_node_name(&nodes, e.target_id.as_str(), Ghost(ns));
        spaced(&mut text, tname.as_str());
        let ghost before = search@;
        let row = SearchRow { kind: owned("edge"), graph_id: e.id.clone(), text };
        assert(search_view(row) == ("edge"@, es[k as int].id@, edge_text(ns, es[k as int])));
        assert(es.take(k + 1).map_values(|e: crate::model::Edge| ("edge"@, e.id@, edge_text(ns, e))) =~= es.take(k as int).map_values(
            |e: crate::model::Edge| ("edge"@, e.id@, edge_text(ns, e)),
        ).push(("edge"@, es[k as int].id@, edge_text(ns, es[k as int]))));
        search.push(row);
        assert(search@.map_values(|r: SearchRow| search_view(r)) =~= before.map_values(|r: SearchRow| search_view(r)).push(search_view(row)));
        assert(search@.map_values(|r: SearchRow| search_view(r)) =~= second + es.take(k + 1).map_values(
            |e: crate::model::Edge| ("edge"@, e.id@, edge_text(ns, e)),
        )) by {
            assert(before.map_values(|r: SearchRow| search_view(r)) =~= second + es.take(k as int).map_values(
                |e: crate::model::Edge| ("edge"@, e.id@, edge_text(ns, e)),
            ));
        }
        k = k + 1;
    }
    assert(es.take(es.len() as int) =~= es);
    GraphRows { nodes, aliases, edges, search }
}

/// A selector as a stored JSON object, fields in declaration order.
pub open spec fn stored_selector_json(sel: SelectorView) -> Seq<char> {
    "{\"start_anchor\":"@ + json_string(sel.start_anchor) + ",\"end_anchor\":"@ + json_string(sel.end_anchor)
        + ",\"start_occurrence\":"@ + json_count(sel.start_occurrence) + ",\"end_occurrence\":"@ + json_count(
        sel.end_occurrence,
    ) + "}"@
}

/// A selector as a stored JSON object.
pub fn stored_selector(selector: &EvidenceSelector) -> (out: String)
    ensures
        out@ == stored_selector_json(selector@),
{
    let mut out = owned("{\"start_anchor\":");
    let q = json_quote(selector.start_anchor.as_str());
    push_str(&mut out, q.as_str());
    push_str(&mut out, ",\"end_anchor\":");
    let q = json_quote(selector.end_anchor.as_str());
    push_str(&mut out, q.as_str());
    push_str(&mut out, ",\"start_occurrence\":");
    push_json_count(&mut out, selector.start_occurrence);
    push_str(&mut out, ",\"end_occurrence\":");
    push_json_count(&mut out, selector.end_occurrence);
    push_str(&mut out, "}");
    out
}

/// The snapshot an evidence entry's row is written from: found by the key
/// of its selector among the resolved snapshots.
pub open spec fn row_snapshot(e: crate::model::Evidence, snaps: Seq<(String, EvidenceSnapshot)>) -> Result<EvidenceSnapshot, Seq<char>> {
    match selector_spec(e) {
        Err(m) => Err(m),
        Ok(sel) => {
            let key = key_spec(e.path@, sel);
            if map_view(snaps).contains_key(key) {
                Ok(map_view(snaps)[key])
            } else {
                Err("missing cached evidence snapshot for "@ + key)
            }
        },
    }
}

/// The first failure among the rows of the cited evidence, if any.
pub open spec fn evidence_rows_spec(
    cited: Seq<(LoadedRecord, crate::model::Evidence)>,
    snaps: Seq<(String, EvidenceSnapshot)>,
) -> Result<(), Seq<char>>
    decreases cited.len(),
{
    if cited.len() == 0 {
        Ok(())
    } else {
        match evidence_rows_spec(cited.drop_last(), snaps) {
            Err(m) => Err(m),
            Ok(()) => match row_snapshot(cited.last().1, snaps) {
                Err(m) => Err(m),
                Ok(_) => Ok(()),
            },
        }
    }
}

/// The row of evidence `e` of record `r`, written from `snap`.
pub open spec fn evidence_row_spec(
    row: EvidenceRow,
    r: LoadedRecord,
    e: crate::model::Evidence,
    snap: EvidenceSnapshot,
    entries: Seq<(String, LockedEvidence)>,
) -> bool {
    &&& row.subject_kind@ == r.record.kind_spec()
    &&& row.subject_id@ == r.record.subject_spec()
    &&& row.path@ == snap.path@
    &&& row.selector_json@ == stored_selector_json(snap.selector@)
    &&& row.line_start == snap.line_start
    &&& row.line_end == snap.line_end
    &&& row.method@ == crate::validate::evidence_method(e)
    &&& row.review@ == crate::validate::evidence_review(e, r.record.review_spec())
    &&& ov(row.extractor_version) == ov(e.extractor_version)
    &&& row.lock_status@ == status_spec(snap.span_sha256@, locked_span(entries, snap.key@))
    &&& ov(row.locked_span_sha256) == locked_span(entries, snap.key@)
    &&& row.actual_span_sha256@ == snap.span_sha256@
    &&& row.file_sha256@ == snap.file_sha256@
    &&& row.quote@ == snap.quote@
}

/// The row of one evidence entry.
fn evidence_row(
    r: &LoadedRecord,
    e: &crate::model::Evidence,
    snapshots: &Vec<(String, EvidenceSnapshot)>,
    lock: &EvidenceLock,
) -> (out: Result<EvidenceRow, GraphError>)
    ensures
        match (out, row_snapshot(*e, snapshots@)) {
            (Ok(row), Ok(snap)) => evidence_row_spec(row, *r, *e, snap, lock.evidence@),
            (Err(err), Err(m)) => err.text() == m,
            _ => false,
        },
{
    let selector = evidence_selector(e)?;
    let key = evidence_key(e.path.as_str(), &selector);
    let snapshot = match keyed_get(snapshots, key.as_str()) {
        Some(s) => s,
        None => {
            let mut m = owned("missing cached evidence snapshot for ");
            push_str(&mut m, key.as_str());
            return Err(GraphError::msg(m));
        },
    };
    let locked = keyed_get(&lock.evidence, snapshot.key.as_str());
    let method = match &e.method {
        Some(m) => m.clone(),
        None => owned("human"),
    };
    let review = match &e.review {
        Some(v) => v.clone(),
        None => owned(r.record.review()),
    };
    let lock_status = owned(snapshot_status(snapshot, locked));
    let locked_span_sha256 = match locked {
        Some(l) => Some(l.span_sha256.clone()),
        None => None,
    };
    Ok(EvidenceRow {
        subject_kind: owned(r.record.kind()),
        subject_id: owned(r.record.subject_id()),
        path: snapshot.path.clone(),
        selector_json: stored_selector(&snapshot.selector),
        line_start: snapshot.line_start,
        line_end: snapshot.line_end,
        method,
        review,
        extractor_version: copy_opt(&e.extractor_version),
        lock_status,
        locked_span_sha256,
        actual_span_sha256: snapshot.span_sha256.clone(),
        file_sha256: snapshot.file_sha256.clone(),
        quote: snapshot.quote.clone(),
    })
}

/// A failure of a prefix is the failure of the whole.
proof fn lemma_rows_err_prefix(
    cited: Seq<(LoadedRecord, crate::model::Evidence)>,
    snaps: Seq<(String, EvidenceSnapshot)>,
    k: int,
    m: Seq<char>,
)
    requires
        0 <= k <= cited.len(),
        evidence_rows_spec(cited.take(k), snaps) == Err::<(), Seq<char>>(m),
    ensures
        evidence_rows_spec(cited, snaps) == Err::<(), Seq<char>>(m),
    decreases cited.len() - k,
{
    if k < cited.len() {
        assert(cited.take(k + 1).drop_last() =~= cited.take(k));
        lemma_rows_err_prefix(cited, snaps, k + 1, m);
    } else {
        assert(cited.take(k) =~= cited);
    }
}

/// The cited entries of the first `i` records begin those of the first `n`.
proof fn lemma_cited_prefix(recs: Seq<LoadedRecord>, i: nat, n: nat)
    requires
        i <= n <= recs.len(),
    ensures
        crate::lock::cited(recs, i).len() <= crate::lock::cited(recs, n).len(),
        crate::lock::cited(recs, n).take(crate::lock::cited(recs, i).len() as int) == crate::lock::cited(recs, i),
    decreases n,
{
    if i < n {
        lemma_cited_prefix(recs, i, (n - 1) as nat);
        let a = crate::lock::cited(recs, (n - 1) as nat);
        let b = recs[n - 1].record.evidence_spec().map_values(|e: crate::model::Evidence| (recs[n - 1], e));
        assert((a + b).take(crate::lock::cited(recs, i).len() as int) =~= a.take(crate::lock::cited(recs, i).len() as int));
    } else {
        assert(crate::lock::cited(recs, n).take(crate::lock::cited(recs, n).len() as int) =~= crate::lock::cited(recs, n));
    }
}

/// The rows of the `evidence` table: one per cited evidence entry, written
/// from the resolved snapshot for its key and its lock state.
pub fn evidence_rows(
    records: &Vec<LoadedRecord>,
    snapshots: &Vec<(String, EvidenceSnapshot)>,
    lock: &EvidenceLock,
) -> (out: Result<Vec<EvidenceRow>, GraphError>)
    ensures
        match (out, evidence_rows_spec(crate::lock::cited(records@, records@.len()), snapshots@)) {
            (Ok(rows), Ok(())) => {
                &&& rows@.len() == crate::lock::cited(records@, records@.len()).len()
                &&& forall|k: int|
                    0 <= k < rows@.len() ==> evidence_row_spec(
                        #[trigger] rows@[k],
                        crate::lock::cited(records@, records@.len())[k].0,
                        crate::lock::cited(records@, records@.len())[k].1,
                        row_snapshot(crate::lock::cited(records@, records@.len())[k].1, snapshots@)->Ok_0,
                        lock.evidence@,
                    )
            },
            (Err(e), Err(m)) => e.text() == m,
            _ => false,
        },
{
    let ghost all = crate::lock::cited(records@, records@.len());
    let mut rows: Vec<EvidenceRow> = Vec::new();
    let mut i: usize = 0;
    while i < records.len()
        invariant
            i <= records@.len(),
            all == crate::lock::cited(records@, records@.len()),
            rows@.len() == crate::lock::cited(records@, i as nat).len(),
            evidence_rows_spec(crate::lock::cited(records@, i as nat), snapshots@) == Ok::<(), Seq<char>>(()),
            forall|k: int|
                0 <= k < rows@.len() ==> evidence_row_spec(
                    #[trigger] rows@[k],
                    crate::lock::cited(records@, i as nat)[k].0,
                    crate::lock::cited(records@, i as nat)[k].1,
                    row_snapshot(crate::lock::cited(records@, i as nat)[k].1, snapshots@)->Ok_0,
                    lock.evidence@,
                ),
        decreases records.len() - i,
    {
        let r = &records[i];
        let evs = r.record.evidence();
        let ghost base = crate::lock::cited(records@, i as nat);
        let ghost add = evs@.map_values(|e: crate::model::Evidence| (records@[i as int], e));
        let mut j: usize = 0;
        assert(base + add.take(0) =~= base);
        while j < evs.len()
            invariant
                i < records@.len(),
                all == crate::lock::cited(records@, records@.len()),
                *r == records@[i as int],
                evs@ == r.record.evidence_spec(),
                base == crate::lock::cited(records@, i as nat),
                add == evs@.map_values(|e: crate::model::Evidence| (records@[i as int], e)),
                j <= evs@.len(),
                rows@.len() == base.len() + j,
                evidence_rows_spec(base + add.take(j as int), snapshots@) == Ok::<(), Seq<char>>(()),
                forall|k: int|
                    0 <= k < rows@.len() ==> evidence_row_spec(
                        #[trigger] rows@[k],
                        (base + add)[k].0,
                        (base + add)[k].1,
                        row_snapshot((base + add)[k].1, snapshots@)->Ok_0,
                        lock.evidence@,
                    ),
            decreases evs.len() - j,
        {
            let ghost next = base + add.take(j + 1);
            assert(next.drop_last() =~= base + add.take(j as int));
            assert(next.last() == (records@[i as int], evs@[j as int]));
            assert((base + add)[base.len() + j] == (records@[i as int], evs@[j as int]));
            match evidence_row(r, &evs[j], snapshots, lock) {
                Err(e) => {
                    proof {
                        lemma_cited_prefix(records@, (i + 1) as nat, records@.len());
                        assert(crate::lock::cited(records@, (i + 1) as nat) == base + add);
                        assert(all.take(next.len() as int) =~= next);
                        lemma_rows_err_prefix(all, snapshots@, next.len() as int, e.text());
                    }
                    return Err(e);
                },
                Ok(row) => {
                    rows.push(row);
                },
            }
            j = j + 1;
        }
        assert(add.take(add.len() as int) =~= add);
        assert(crate::lock::cited(records@, (i + 1) as nat) == base + add);
        i = i + 1;
    }
    Ok(rows)
}

/// The text stored for the configuration's schema version.
pub open spec fn schema_version_text(v: SchemaVersion) -> Seq<char> {
    match v {
        SchemaVersion::Text(s) => s@,
        SchemaVersion::Json(s) => s@,
    }
}

/// Everything a build writes into a fresh index.
#[derive(Debug, Clone)]
pub struct BuildPlan {
    /// The `meta` table: project, schema version, build time, fingerprint.
    pub meta: Vec<(String, String)>,
    pub graph: GraphRows,
    pub evidence: Vec<EvidenceRow>,
    pub counts: crate::model::BuildCounts,
}

/// The rows of a new index for validated, reviewed records.
pub fn index_rows(
    config: &Config,
    records: &Vec<LoadedRecord>,
    lock: &EvidenceLock,
    snapshots: &Vec<(String, EvidenceSnapshot)>,
    fingerprint: &str,
    built_at: &str,
) -> (out: Result<BuildPlan, GraphError>)
    ensures
        match (out, evidence_rows_spec(crate::lock::cited(records@, records@.len()), snapshots@)) {
            (Ok(plan), Ok(())) => {
                &&& plan.meta@.len() == 4
                &&& plan.meta@[0].0@ == "project"@ && plan.meta@[0].1@ == config.project@
                &&& plan.meta@[1].0@ == "schema_version"@ && plan.meta@[1].1@ == schema_version_text(config.schema_version)
                &&& plan.meta@[2].0@ == "built_at"@ && plan.meta@[2].1@ == built_at@
                &&& plan.meta@[3].0@ == "build_fingerprint"@ && plan.meta@[3].1@ == fingerprint@
                &&& plan.graph.nodes@.len() == nodes_of(records@, records@.len()).len()
                &&& forall|k: int|
                    0 <= k < plan.graph.nodes@.len() ==> node_row_spec(
                        #[trigger] plan.graph.nodes@[k],
                        nodes_of(records@, records@.len())[k],
                    )
                &&& plan.graph.aliases@.len() == aliases_of(records@, records@.len()).len()
                &&& forall|k: int|
                    0 <= k < plan.graph.aliases@.len() ==> (#[trigger] plan.graph.aliases@[k]).alias@ == aliases_of(
                        records@,
                        records@.len(),
                    )[k].alias@ && plan.graph.aliases@[k].node_id@ == aliases_of(records@, records@.len())[k].node@
                &&& plan.graph.edges@.len() == edges_of(records@, records@.len()).len()
                &&& forall|k: int|
                    0 <= k < plan.graph.edges@.len() ==> edge_row_spec(
                        #[trigger] plan.graph.edges@[k],
                        edges_of(records@, records@.len())[k],
                    )
                &&& plan.graph.search@.map_values(|r: SearchRow| search_view(r)) == search_spec(records@)
                &&& plan.evidence@.len() == crate::lock::cited(records@, records@.len()).len()
                &&& forall|k: int|
                    0 <= k < plan.evidence@.len() ==> evidence_row_spec(
                        #[trigger] plan.evidence@[k],
                        crate::lock::cited(records@, records@.len())[k].0,
                        crate::lock::cited(records@, records@.len())[k].1,
                        row_snapshot(crate::lock::cited(records@, records@.len())[k].1, snapshots@)->Ok_0,
                        lock.evidence@,
                    )
                &&& plan.counts.nodes == plan.graph.nodes@.len()
                &&& plan.counts.aliases == plan.graph.aliases@.len()
                &&& plan.counts.edges == plan.graph.edges@.len()
                &&& plan.counts.evidence == plan.evidence@.len()
                &&& !plan.counts.reused
            },
            (Err(e), Err(m)) => e.text() == m,
            _ => false,
        },
{
    let graph = graph_rows(records);
    let evidence = evidence_rows(records, snapshots, lock)?;
    let mut meta: Vec<(String, String)> = Vec::new();
    meta.push((owned("project"), config.project.clone()));
    let version = match &config.schema_version {
        SchemaVersion::Text(v) => v.clone(),
        SchemaVersion::Json(v) => v.clone(),
    };
    meta.push((owned("schema_version"), version));
    meta.push((owned("built_at"), owned(built_at)));
    meta.push((owned("build_fingerprint"), owned(fingerprint)));
    let counts = crate::model::BuildCounts {
        nodes: graph.nodes.len(),
        edges: graph.edges.len(),
        aliases: graph.aliases.len(),
        evidence: evidence.len(),
        reused: false,
    };
    Ok(BuildPlan { meta, graph, evidence, counts })
}

/// Checks records before a build: they must be valid, with every evidence
/// entry resolving in the loaded sources, and all reviewed.
pub fn check_build_records(config: &Config, records: &Vec<LoadedRecord>, sources: &SourceTable) -> (out: Result<(), GraphError>)
    ensures
        out is Ok <==> crate::validate::validation_messages(*config, records@, Some(sources@)).len() == 0
            && crate::validate::all_reviewed(records@),
        out matches Err(e) ==> e.text() == if crate::validate::validation_messages(*config, records@, Some(sources@)).len() > 0 {
            crate::text::join(crate::validate::validation_messages(*config, records@, Some(sources@)), "\n"@)
        } else {
            crate::text::join(crate::validate::noncanonical_messages(records@, records@.len()), "\n"@)
        },
{
    let errors = crate::validate::validate_records(config, records, Some(sources));
    assert(crate::validate::table_view(Some(sources)) == Some(sources@));
    if errors.len() > 0 {
        return Err(GraphError::msg(crate::text::join_strings(&errors, "\n")));
    }
    crate::validate::canonical_records(records)
}

/// The nodes, aliases and edges of reviewed records are all reviewed, so an
/// index built from records that pass the checks holds reviewed facts only.
pub proof fn law_index_holds_reviewed_facts(recs: Seq<LoadedRecord>, n: nat)
    requires
        n <= recs.len(),
        crate::validate::all_reviewed(recs),
    ensures
        forall|k: int| 0 <= k < nodes_of(recs, n).len() ==> (#[trigger] nodes_of(recs, n)[k]).review@ == "reviewed"@,
        forall|k: int| 0 <= k < aliases_of(recs, n).len() ==> (#[trigger] aliases_of(recs, n)[k]).review@ == "reviewed"@,
        forall|k: int| 0 <= k < edges_of(recs, n).len() ==> (#[trigger] edges_of(recs, n)[k]).review@ == "reviewed"@,
    decreases n,
{
    if n > 0 {
        law_index_holds_reviewed_facts(recs, (n - 1) as nat);
        let r = recs[n - 1];
        assert(r.record.review_spec() == "reviewed"@);
        assert forall|k: int| 0 <= k < nodes_of(recs, n).len() implies (#[trigger] nodes_of(recs, n)[k]).review@ == "reviewed"@ by {
            if k >= nodes_of(recs, (n - 1) as nat).len() {
                assert(r.record is Node);
            } else {
                assert(nodes_of(recs, n)[k] == nodes_of(recs, (n - 1) as nat)[k]);
            }
        }
        assert forall|k: int| 0 <= k < aliases_of(recs, n).len() implies (#[trigger] aliases_of(recs, n)[k]).review@ == "reviewed"@ by {
            if k >= aliases_of(recs, (n - 1) as nat).len() {
                assert(r.record is Alias);
            } else {
                assert(aliases_of(recs, n)[k] == aliases_of(recs, (n - 1) as nat)[k]);
            }
        }
        assert forall|k: int| 0 <= k < edges_of(recs, n).len() implies (#[trigger] edges_of(recs, n)[k]).review@ == "reviewed"@ by {
            if k >= edges_of(recs, (n - 1) as nat).len() {
                assert(r.record is Edge);
            } else {
                assert(edges_of(recs, n)[k] == edges_of(recs, (n - 1) as nat)[k]);
            }
        }
    }
}

} // verus!
