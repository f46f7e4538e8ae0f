//! The rules a set of records must follow: identifiers, vocabulary, review
//! states, evidence entries, references between records, and identifiers
//! that would shadow one another.

use vstd::prelude::*;
use crate::error::GraphError;
use crate::evidence::{snapshot_evidence, snapshot_spec, SourceText, SourceTable};
use crate::model::{Config, Evidence, LoadedRecord, Record};
use crate::text::{
    all_white, chars_of, debug_quote, debug_str, decimal, decimal_string, has_substr, is_blank,
    join, join_strings, list_contains, lowercase, owned, push_if, push_str, starts_with,
    str_contains, str_eq, str_starts_with, to_lowercase, views, extend_strings, lemma_views_concat,
};

verus! {

/// Where a record was read: `origin:line`.
pub open spec fn location(r: LoadedRecord) -> Seq<char> {
    r.origin@ + ":"@ + decimal(r.line as nat)
}

/// A message about a record: its location, `: `, and the text.
pub open spec fn at(r: LoadedRecord, body: Seq<char>) -> Seq<char> {
    location(r) + ": "@ + body
}

/// A one-message list when `cond` holds, else nothing.
pub open spec fn when(cond: bool, m: Seq<char>) -> Seq<Seq<char>> {
    if cond {
        seq![m]
    } else {
        seq![]
    }
}

/// An ASCII letter or digit.
pub open spec fn ascii_alnum(c: char) -> bool {
    ('0' <= c <= '9') || ('a' <= c <= 'z') || ('A' <= c <= 'Z')
}

/// A valid identifier: an ASCII letter or digit, then ASCII letters, digits
/// and `_ . : / -`.
pub open spec fn valid_id_spec(s: Seq<char>) -> bool {
    s.len() > 0 && ascii_alnum(s[0]) && forall|i: int|
        1 <= i < s.len() ==> ascii_alnum(#[trigger] s[i]) || s[i] == '_' || s[i] == '.' || s[i]
            == ':' || s[i] == '/' || s[i] == '-'
}

/// Whether a string is a valid identifier.
pub fn valid_id(value: &str) -> (res: bool)
    ensures
        res == valid_id_spec(value@),
{
    let v = chars_of(value);
    if v.len() == 0 {
        return false;
    }
    let c0 = v[0];
    if !(('0' <= c0 && c0 <= '9') || ('a' <= c0 && c0 <= 'z') || ('A' <= c0 && c0 <= 'Z')) {
        return false;
    }
    let mut i: usize = 1;
    while i < v.len()
        invariant
            v@ == value@,
            1 <= i <= v.len(),
            forall|k: int|
                1 <= k < i ==> ascii_alnum(#[trigger] value@[k]) || value@[k] == '_' || value@[k]
                    == '.' || value@[k] == ':' || value@[k] == '/' || value@[k] == '-',
        decreases v.len() - i,
    {
        let c = v[i];
        if !(('0' <= c && c <= '9') || ('a' <= c && c <= 'z') || ('A' <= c && c <= 'Z') || c == '_'
            || c == '.' || c == ':' || c == '/' || c == '-') {
            assert(!(ascii_alnum(value@[i as int]) || value@[i as int] == '_' || value@[i as int] == '.'
                || value@[i as int] == ':' || value@[i as int] == '/' || value@[i as int] == '-'));
            return false;
        }
        i = i + 1;
    }
    true
}

/// A review state the format knows.
pub open spec fn review_ok(r: Seq<char>) -> bool {
    r == "reviewed"@ || r == "candidate"@ || r == "rejected"@
}

/// An evidence method the format knows.
pub open spec fn method_ok(m: Seq<char>) -> bool {
    m == "deterministic"@ || m == "human"@ || m == "model"@
}

fn is_review_state(r: &str) -> (res: bool)
    ensures
        res == review_ok(r@),
{
    str_eq(r, "reviewed") || str_eq(r, "candidate") || str_eq(r, "rejected")
}

fn is_method(m: &str) -> (res: bool)
    ensures
        res == method_ok(m@),
{
    str_eq(m, "deterministic") || str_eq(m, "human") || str_eq(m, "model")
}

/// The method of an evidence entry; `human` when none is given.
pub open spec fn evidence_method(e: Evidence) -> Seq<char> {
    match e.method {
        Some(m) => m@,
        None => "human"@,
    }
}

/// The review state of an evidence entry; the record's when none is given.
pub open spec fn evidence_review(e: Evidence, record_review: Seq<char>) -> Seq<char> {
    match e.review {
        Some(r) => r@,
        None => record_review,
    }
}

/// An unknown evidence key that looks like a misspelled selector field.
pub open spec fn selector_like(key: Seq<char>) -> bool {
    let f = lowercase(key);
    has_substr(f, "anchor"@) || has_substr(f, "occur"@) || f == "line"@ || starts_with(f, "line_"@)
}

/// `evidence[j]` as it appears in messages.
pub open spec fn evidence_label(j: nat) -> Seq<char> {
    "evidence["@ + decimal(j) + "]"@
}

/// Messages for the unknown keys of one evidence entry.
pub open spec fn key_messages(r: LoadedRecord, j: nat, extra: Seq<(String, String)>) -> Seq<Seq<char>>
    decreases extra.len(),
{
    if extra.len() == 0 {
        seq![]
    } else {
        key_messages(r, j, extra.drop_last()) + when(
            selector_like(extra.last().0@),
            at(
                r,
                evidence_label(j) + " unknown key "@ + debug_str(extra.last().0@)
                    + " resembles a selector field; use start_anchor/end_anchor/start_occurrence/end_occurrence"@,
            ),
        )
    }
}

/// Messages for evidence entry `j` of a record.
pub open spec fn evidence_entry_messages(
    r: LoadedRecord,
    j: nat,
    e: Evidence,
    sources: Option<Seq<(String, core::result::Result<SourceText, GraphError>)>>,
) -> Seq<Seq<char>> {
    let method = evidence_method(e);
    let review = evidence_review(e, r.record.review_spec());
    when(!method_ok(method), at(r, evidence_label(j) + " invalid method "@ + debug_str(method)))
        + when(
        !review_ok(review),
        at(r, evidence_label(j) + " invalid review state "@ + debug_str(review)),
    ) + when(
        r.record.review_spec() == "reviewed"@ && review != "reviewed"@,
        at(r, evidence_label(j) + " on a reviewed record must be reviewed"@),
    ) + key_messages(r, j, e.extra@) + match sources {
        None => seq![],
        Some(t) => match snapshot_spec(t, e) {
            Ok(_) => seq![],
            Err(m) => seq![at(r, evidence_label(j) + ": "@ + m)],
        },
    }
}

/// Messages for the first `n` evidence entries of a record.
pub open spec fn evidence_messages(
    r: LoadedRecord,
    evs: Seq<Evidence>,
    n: nat,
    sources: Option<Seq<(String, core::result::Result<SourceText, GraphError>)>>,
) -> Seq<Seq<char>>
    decreases n,
{
    if n == 0 {
        seq![]
    } else {
        evidence_messages(r, evs, (n - 1) as nat, sources) + evidence_entry_messages(
            r,
            (n - 1) as nat,
            evs[n - 1],
            sources,
        )
    }
}

/// The record is a node with this id.
pub open spec fn is_node_with_id(r: Record, id: Seq<char>) -> bool {
    match r {
        Record::Node(n) => n.id@ == id,
        _ => false,
    }
}

/// The record is an edge with this id.
pub open spec fn is_edge_with_id(r: Record, id: Seq<char>) -> bool {
    match r {
        Record::Edge(e) => e.id@ == id,
        _ => false,
    }
}

/// The record is an alias that folds to this lower-case form.
pub open spec fn is_alias_folding_to(r: Record, folded: Seq<char>) -> bool {
    match r {
        Record::Alias(a) => lowercase(a.alias@) == folded,
        _ => false,
    }
}

/// The record is a node whose id folds to this lower-case form.
pub open spec fn is_node_folding_to(r: Record, folded: Seq<char>) -> bool {
    match r {
        Record::Node(n) => lowercase(n.id@) == folded,
        _ => false,
    }
}

/// An earlier record is a node with this id.
pub open spec fn earlier_node(recs: Seq<LoadedRecord>, i: int, id: Seq<char>) -> bool {
    exists|j: int| 0 <= j < i && is_node_with_id((#[trigger] recs[j]).record, id)
}

/// An earlier record is an edge with this id.
pub open spec fn earlier_edge(recs: Seq<LoadedRecord>, i: int, id: Seq<char>) -> bool {
    exists|j: int| 0 <= j < i && is_edge_with_id((#[trigger] recs[j]).record, id)
}

/// An earlier record is an alias that folds to the same lower case.
pub open spec fn earlier_alias(recs: Seq<LoadedRecord>, i: int, folded: Seq<char>) -> bool {
    exists|j: int| 0 <= j < i && is_alias_folding_to((#[trigger] recs[j]).record, folded)
}

/// Messages about a record's own fields.
pub open spec fn field_messages(cfg: Config, recs: Seq<LoadedRecord>, i: int) -> Seq<Seq<char>> {
    let r = recs[i];
    match r.record {
        Record::Node(n) => when(!valid_id_spec(n.id@), at(r, "invalid or missing id"@)) + when(
            earlier_node(recs, i, n.id@),
            at(r, "duplicate node id "@ + debug_str(n.id@)),
        ) + when(
            !views(cfg.node_types@).contains(n.node_type@),
            at(r, "unknown node type "@ + debug_str(n.node_type@)),
        ) + when(all_white(n.name@), at(r, "node name must be non-empty"@)),
        Record::Edge(e) => when(!valid_id_spec(e.id@), at(r, "invalid or missing id"@)) + when(
            earlier_edge(recs, i, e.id@),
            at(r, "duplicate edge id "@ + debug_str(e.id@)),
        ) + when(
            !views(cfg.predicates@).contains(e.predicate@),
            at(r, "unknown predicate "@ + debug_str(e.predicate@)),
        ) + when(
            cfg.require_edge_evidence && e.evidence@.len() == 0,
            at(r, "edge requires evidence"@),
        ),
        Record::Alias(a) => when(all_white(a.alias@), at(r, "alias must be non-empty"@)) + when(
            earlier_alias(recs, i, lowercase(a.alias@)),
            at(r, "duplicate alias "@ + debug_str(a.alias@)),
        ),
    }
}

/// All messages about record `i` on its own.
pub open spec fn record_messages(
    cfg: Config,
    recs: Seq<LoadedRecord>,
    i: int,
    sources: Option<Seq<(String, core::result::Result<SourceText, GraphError>)>>,
) -> Seq<Seq<char>> {
    let r = recs[i];
    field_messages(cfg, recs, i) + when(
        !review_ok(r.record.review_spec()),
        at(r, "invalid review state "@ + debug_str(r.record.review_spec())),
    ) + evidence_messages(r, r.record.evidence_spec(), r.record.evidence_spec().len(), sources)
}

/// Messages about the first `n` records on their own.
pub open spec fn all_record_messages(
    cfg: Config,
    recs: Seq<LoadedRecord>,
    n: nat,
    sources: Option<Seq<(String, core::result::Result<SourceText, GraphError>)>>,
) -> Seq<Seq<char>>
    decreases n,
{
    if n == 0 {
        seq![]
    } else {
        all_record_messages(cfg, recs, (n - 1) as nat, sources) + record_messages(
            cfg,
            recs,
            n - 1,
            sources,
        )
    }
}

/// Some record is a node with this id.
pub open spec fn node_exists(recs: Seq<LoadedRecord>, id: Seq<char>) -> bool {
    earlier_node(recs, recs.len() as int, id)
}

/// Some node id folds to the same lower case.
pub open spec fn node_folds_to(recs: Seq<LoadedRecord>, folded: Seq<char>) -> bool {
    exists|j: int| 0 <= j < recs.len() && is_node_folding_to((#[trigger] recs[j]).record, folded)
}

/// Record `i` is the last edge with its id.
pub open spec fn last_edge(recs: Seq<LoadedRecord>, i: int) -> bool {
    recs[i].record is Edge && forall|j: int|
        i < j < recs.len() ==> !is_edge_with_id((#[trigger] recs[j]).record, recs[i].record->Edge_0.id@)
}

/// Record `i` is the last alias with its lower-case form.
pub open spec fn last_alias(recs: Seq<LoadedRecord>, i: int) -> bool {
    recs[i].record is Alias && forall|j: int|
        i < j < recs.len() ==> !is_alias_folding_to((#[trigger] recs[j]).record, lowercase(recs[i].record->Alias_0.alias@))
}

/// Messages about the references of edge record `i`.
pub open spec fn edge_reference_messages(recs: Seq<LoadedRecord>, i: int) -> Seq<Seq<char>> {
    let r = recs[i];
    if last_edge(recs, i) {
        let e = r.record->Edge_0;
        when(
            !node_exists(recs, e.source@),
            at(
                r,
                "edge "@ + debug_str(e.id@) + " references missing source node "@ + debug_str(
                    e.source@,
                ),
            ),
        ) + when(
            !node_exists(recs, e.target@),
            at(
                r,
                "edge "@ + debug_str(e.id@) + " references missing target node "@ + debug_str(
                    e.target@,
                ),
            ),
        ) + when(
            node_exists(recs, e.id@),
            at(
                r,
                "edge id "@ + debug_str(e.id@)
                    + " collides with a node id; the node would shadow it"@,
            ),
        )
    } else {
        seq![]
    }
}

/// Messages about the references of alias record `i`.
pub open spec fn alias_reference_messages(recs: Seq<LoadedRecord>, i: int) -> Seq<Seq<char>> {
    let r = recs[i];
    if last_alias(recs, i) {
        let a = r.record->Alias_0;
        when(
            !node_exists(recs, a.node@),
            at(
                r,
                "alias "@ + debug_str(a.alias@) + " references missing node "@ + debug_str(
                    a.node@,
                ),
            ),
        ) + when(
            node_folds_to(recs, lowercase(a.alias@)),
            at(
                r,
                "alias "@ + debug_str(a.alias@)
                    + " collides with a node id; the node would shadow it"@,
            ),
        )
    } else {
        seq![]
    }
}

/// Reference messages of the first `n` edge records.
pub open spec fn all_edge_references(recs: Seq<LoadedRecord>, n: nat) -> Seq<Seq<char>>
    decreases n,
{
    if n == 0 {
        seq![]
    } else {
        all_edge_references(recs, (n - 1) as nat) + edge_reference_messages(recs, n - 1)
    }
}

/// Reference messages of the first `n` alias records.
pub open spec fn all_alias_references(recs: Seq<LoadedRecord>, n: nat) -> Seq<Seq<char>>
    decreases n,
{
    if n == 0 {
        seq![]
    } else {
        all_alias_references(recs, (n - 1) as nat) + alias_reference_messages(recs, n - 1)
    }
}

/// Everything wrong with a set of records, in order: each record's own
/// problems, then the references of edges, then those of aliases.
pub open spec fn validation_messages(
    cfg: Config,
    recs: Seq<LoadedRecord>,
    sources: Option<Seq<(String, core::result::Result<SourceText, GraphError>)>>,
) -> Seq<Seq<char>> {
    all_record_messages(cfg, recs, recs.len(), sources) + all_edge_references(recs, recs.len())
        + all_alias_references(recs, recs.len())
}

/// The loaded sources as the specification sees them.
pub open spec fn table_view(sources: Option<&SourceTable>) -> Option<Seq<(String, core::result::Result<SourceText, GraphError>)>> {
    match sources {
        None => None,
        Some(t) => Some(t@),
    }
}

/// `origin:line` of a record.
fn location_text(r: &LoadedRecord) -> (out: String)
    ensures
        out@ == location(*r),
{
    let mut out = r.origin.clone();
    push_str(&mut out, ":");
    let d = decimal_string(r.line);
    push_str(&mut out, d.as_str());
    out
}

/// A message about a record.
fn at_message(r: &LoadedRecord, body: &str) -> (out: String)
    ensures
        out@ == at(*r, body@),
{
    let mut out = location_text(r);
    push_str(&mut out, ": ");
    push_str(&mut out, body);
    out
}

/// `prefix` followed by the quoted form of `value`.
fn quoted_after(prefix: &str, value: &str) -> (out: String)
    ensures
        out@ == prefix@ + debug_str(value@),
{
    let mut out = owned(prefix);
    let q = debug_quote(value);
    push_str(&mut out, q.as_str());
    out
}

/// Whether one of the first `i` records is a node with this id.
fn node_before(records: &Vec<LoadedRecord>, i: usize, id: &str) -> (res: bool)
    requires
        i <= records@.len(),
    ensures
        res == earlier_node(records@, i as int, id@),
{
    let mut j: usize = 0;
    while j < i
        invariant
            j <= i <= records@.len(),
            forall|k: int| 0 <= k < j ==> !is_node_with_id((#[trigger] records@[k]).record, id@),
        decreases i - j,
    {
        if let Record::Node(n) = &records[j].record {
            if str_eq(n.id.as_str(), id) {
                assert(is_node_with_id(records@[j as int].record, id@));
                return true;
            }
        }
        j = j + 1;
    }
    false
}

/// Whether one of the first `i` records is an edge with this id.
fn edge_before(records: &Vec<LoadedRecord>, i: usize, id: &str) -> (res: bool)
    requires
        i <= records@.len(),
    ensures
        res == earlier_edge(records@, i as int, id@),
{
    let mut j: usize = 0;
    while j < i
        invariant
            j <= i <= records@.len(),
            forall|k: int| 0 <= k < j ==> !is_edge_with_id((#[trigger] records@[k]).record, id@),
        decreases i - j,
    {
        if let Record::Edge(e) = &records[j].record {
            if str_eq(e.id.as_str(), id) {
                assert(is_edge_with_id(records@[j as int].record, id@));
                return true;
            }
        }
        j = j + 1;
    }
    false
}

/// Whether one of the first `i` records is an alias folding to `folded`.
fn alias_before(records: &Vec<LoadedRecord>, i: usize, folded: &str) -> (res: bool)
    requires
        i <= records@.len(),
    ensures
        res == earlier_alias(records@, i as int, folded@),
{
    let mut j: usize = 0;
    while j < i
        invariant
            j <= i <= records@.len(),
            forall|k: int| 0 <= k < j ==> !is_alias_folding_to((#[trigger] records@[k]).record, folded@),
        decreases i - j,
    {
        if let Record::Alias(a) = &records[j].record {
            let f = to_lowercase(a.alias.as_str());
            if str_eq(f.as_str(), folded) {
                assert(is_alias_folding_to(records@[j as int].record, folded@));
                return true;
            }
        }
        j = j + 1;
    }
    false
}

/// Whether some node id folds to `folded`.
fn node_folding(records: &Vec<LoadedRecord>, folded: &str) -> (res: bool)
    ensures
        res == node_folds_to(records@, folded@),
{
    let mut j: usize = 0;
    while j < records.len()
        invariant
            j <= records@.len(),
            forall|k: int| 0 <= k < j ==> !is_node_folding_to((#[trigger] records@[k]).record, folded@),
        decreases records.len() - j,
    {
        if let Record::Node(n) = &records[j].record {
            let f = to_lowercase(n.id.as_str());
            if str_eq(f.as_str(), folded) {
                assert(is_node_folding_to(records@[j as int].record, folded@));
                return true;
            }
        }
        j = j + 1;
    }
    false
}

/// Whether no later record is an edge with this id.
fn no_later_edge(records: &Vec<LoadedRecord>, i: usize, id: &str) -> (res: bool)
    requires
        i < records.len(),
    ensures
        res == forall|j: int| i < j < records@.len() ==> !is_edge_with_id((#[trigger] records@[j]).record, id@),
{
    let mut j: usize = i + 1;
    while j < records.len()
        invariant
            i < j <= records@.len(),
            forall|k: int| i < k < j ==> !is_edge_with_id((#[trigger] records@[k]).record, id@),
        decreases records.len() - j,
    {
        if let Record::Edge(e) = &records[j].record {
            if str_eq(e.id.as_str(), id) {
                assert(is_edge_with_id(records@[j as int].record, id@));
                return false;
            }
        }
        j = j + 1;
    }
    true
}

/// Whether no later record is an alias folding to `folded`.
fn no_later_alias(records: &Vec<LoadedRecord>, i: usize, folded: &str) -> (res: bool)
    requires
        i < records.len(),
    ensures
        res == forall|j: int| i < j < records@.len() ==> !is_alias_folding_to((#[trigger] records@[j]).record, folded@),
{
    let mut j: usize = i + 1;
    while j < records.len()
        invariant
            i < j <= records@.len(),
            forall|k: int| i < k < j ==> !is_alias_folding_to((#[trigger] records@[k]).record, folded@),
        decreases records.len() - j,
    {
        if let Record::Alias(a) = &records[j].record {
            let f = to_lowercase(a.alias.as_str());
            if str_eq(f.as_str(), folded) {
                assert(is_alias_folding_to(records@[j as int].record, folded@));
                return false;
            }
        }
        j = j + 1;
    }
    true
}

/// Messages about record `i`'s own fields.
fn field_messages_of(config: &Config, records: &Vec<LoadedRecord>, i: usize) -> (out: Vec<String>)
    requires
        i < records@.len(),
    ensures
        views(out@) == field_messages(*config, records@, i as int),
{
    let r = &records[i];
    let mut out: Vec<String> = Vec::new();
    assert(views(out@) =~= Seq::<Seq<char>>::empty());
    match &r.record {
        Record::Node(n) => {
            let bad = !valid_id(n.id.as_str());
            push_if(&mut out, bad, at_message(r, "invalid or missing id"));
            let dup = node_before(records, i, n.id.as_str());
            let body = quoted_after("duplicate node id ", n.id.as_str());
            push_if(&mut out, dup, at_message(r, body.as_str()));
            let unknown = !list_contains(&config.node_types, n.node_type.as_str());
            let body = quoted_after("unknown node type ", n.node_type.as_str());
            push_if(&mut out, unknown, at_message(r, body.as_str()));
            let blank = is_blank(n.name.as_str());
            push_if(&mut out, blank, at_message(r, "node name must be non-empty"));
        },
        Record::Edge(e) => {
            let bad = !valid_id(e.id.as_str());
            push_if(&mut out, bad, at_message(r, "invalid or missing id"));
            let dup = edge_before(records, i, e.id.as_str());
            let body = quoted_after("duplicate edge id ", e.id.as_str());
            push_if(&mut out, dup, at_message(r, body.as_str()));
            let unknown = !list_contains(&config.predicates, e.predicate.as_str());
            let body = quoted_after("unknown predicate ", e.predicate.as_str());
            push_if(&mut out, unknown, at_message(r, body.as_str()));
            let missing = config.require_edge_evidence && e.evidence.len() == 0;
            push_if(&mut out, missing, at_message(r, "edge requires evidence"));
        },
        Record::Alias(a) => {
            let blank = is_blank(a.alias.as_str());
            push_if(&mut out, blank, at_message(r, "alias must be non-empty"));
            let folded = to_lowercase(a.alias.as_str());
            let dup = alias_before(records, i, folded.as_str());
            let body = quoted_after("duplicate alias ", a.alias.as_str());
            push_if(&mut out, dup, at_message(r, body.as_str()));
        },
    }
    out
}

/// `evidence[j]` followed by `rest`.
fn labeled(j: usize, rest: &str) -> (out: String)
    ensures
        out@ == evidence_label(j as nat) + rest@,
{
    let mut out = owned("evidence[");
    let d = decimal_string(j);
    push_str(&mut out, d.as_str());
    push_str(&mut out, "]");
    push_str(&mut out, rest);
    out
}

/// Whether an unknown evidence key looks like a misspelled selector field.
fn looks_like_selector(key: &str) -> (res: bool)
    ensures
        res == selector_like(key@),
{
    let f = to_lowercase(key);
    str_contains(f.as_str(), "anchor") || str_contains(f.as_str(), "occur") || str_eq(f.as_str(), "line")
        || str_starts_with(f.as_str(), "line_")
}

/// Messages for the unknown keys of evidence entry `j`.
fn key_messages_of(r: &LoadedRecord, j: usize, e: &Evidence) -> (out: Vec<String>)
    ensures
        views(out@) == key_messages(*r, j as nat, e.extra@),
{
    let mut out: Vec<String> = Vec::new();
    let mut k: usize = 0;
    assert(e.extra@.take(0) =~= Seq::<(String, String)>::empty());
    while k < e.extra.len()
        invariant
            k <= e.extra@.len(),
            views(out@) == key_messages(*r, j as nat, e.extra@.take(k as int)),
        decreases e.extra.len() - k,
    {
        let key = e.extra[k].0.as_str();
        let like = looks_like_selector(key);
        let mut rest = quoted_after(" unknown key ", key);
        push_str(&mut rest, " resembles a selector field; use start_anchor/end_anchor/start_occurrence/end_occurrence");
        let body = labeled(j, rest.as_str());
        assert(body@ =~= evidence_label(j as nat) + " unknown key "@ + debug_str(key@)
            + " resembles a selector field; use start_anchor/end_anchor/start_occurrence/end_occurrence"@);
        push_if(&mut out, like, at_message(r, body.as_str()));
        assert(e.extra@.take(k + 1).drop_last() =~= e.extra@.take(k as int));
        assert(e.extra@.take(k + 1).last() == e.extra@[k as int]);
        k = k + 1;
    }
    assert(e.extra@.take(e.extra.len() as int) =~= e.extra@);
    out
}

/// Messages for evidence entry `j` of a record.
fn evidence_entry_messages_of(
    r: &LoadedRecord,
    j: usize,
    e: &Evidence,
    sources: Option<&SourceTable>,
) -> (out: Vec<String>)
    ensures
        views(out@) == evidence_entry_messages(*r, j as nat, *e, table_view(sources)),
{
    let method: &str = match &e.method {
        Some(m) => m.as_str(),
        None => "human",
    };
    let record_review = r.record.review();
    let review: &str = match &e.review {
        Some(v) => v.as_str(),
        None => record_review,
    };
    assert(method@ == evidence_method(*e));
    assert(review@ == evidence_review(*e, r.record.review_spec()));
    let mut out: Vec<String> = Vec::new();
    assert(views(out@) =~= Seq::<Seq<char>>::empty());
    let bad_method = !is_method(method);
    let q = quoted_after(" invalid method ", method);
    let body = labeled(j, q.as_str());
    assert(body@ =~= evidence_label(j as nat) + " invalid method "@ + debug_str(method@));
    push_if(&mut out, bad_method, at_message(r, body.as_str()));
    let bad_review = !is_review_state(review);
    let q = quoted_after(" invalid review state ", review);
    let body = labeled(j, q.as_str());
    assert(body@ =~= evidence_label(j as nat) + " invalid review state "@ + debug_str(review@));
    push_if(&mut out, bad_review, at_message(r, body.as_str()));
    let weaker = str_eq(record_review, "reviewed") && !str_eq(review, "reviewed");
    let body = labeled(j, " on a reviewed record must be reviewed");
    push_if(&mut out, weaker, at_message(r, body.as_str()));
    let ghost first = views(out@);
    let keys = key_messages_of(r, j, e);
    let ghost before = out@;
    extend_strings(&mut out, keys);
    proof {
        lemma_views_concat(before, keys@);
    }
    let ghost second = views(out@);
    match sources {
        None => {
            assert(views(out@) =~= second + Seq::<Seq<char>>::empty());
        },
        Some(t) => {
            match snapshot_evidence(t, e) {
                Ok(_) => {
                    assert(views(out@) =~= second + Seq::<Seq<char>>::empty());
                },
                Err(err) => {
                    let m = err.message();
                    let body = labeled(j, ": ");
                    let mut body = body;
                    push_str(&mut body, m.as_str());
                    let ghost before2 = out@;
                    out.push(at_message(r, body.as_str()));
                    assert(views(out@) =~= views(before2) + seq![at(*r, evidence_label(j as nat) + ": "@ + err.text())]);
                },
            }
        },
    }
    out
}

/// All messages about record `i` on its own.
fn record_messages_of(
    config: &Config,
    records: &Vec<LoadedRecord>,
    i: usize,
    sources: Option<&SourceTable>,
) -> (out: Vec<String>)
    requires
        i < records@.len(),
    ensures
        views(out@) == record_messages(*config, records@, i as int, table_view(sources)),
{
    let r = &records[i];
    let mut out = field_messages_of(config, records, i);
    let review = r.record.review();
    let bad = !is_review_state(review);
    let body = quoted_after("invalid review state ", review);
    push_if(&mut out, bad, at_message(r, body.as_str()));
    let ghost base = views(out@);
    let evs = r.record.evidence();
    let mut j: usize = 0;
    while j < evs.len()
        invariant
            j <= evs@.len(),
            evs@ == r.record.evidence_spec(),
            views(out@) == base + evidence_messages(*r, evs@, j as nat, table_view(sources)),
        decreases evs.len() - j,
    {
        let part = evidence_entry_messages_of(r, j, &evs[j], sources);
        let ghost before = out@;
        extend_strings(&mut out, part);
        proof {
            lemma_views_concat(before, part@);
        }
        assert(views(out@) =~= base + evidence_messages(*r, evs@, (j + 1) as nat, table_view(sources)));
        j = j + 1;
    }
    out
}

/// Reference messages of edge record `i`.
fn edge_references_of(records: &Vec<LoadedRecord>, i: usize) -> (out: Vec<String>)
    requires
        i < records@.len(),
    ensures
        views(out@) == edge_reference_messages(records@, i as int),
{
    let r = &records[i];
    let mut out: Vec<String> = Vec::new();
    assert(views(out@) =~= Seq::<Seq<char>>::empty());
    if let Record::Edge(e) = &r.record {
        if no_later_edge(records, i, e.id.as_str()) {
            let n = records.len();
            let has_source = node_before(records, n, e.source.as_str());
            let mut body = quoted_after("edge ", e.id.as_str());
            let tail = quoted_after(" references missing source node ", e.source.as_str());
            push_str(&mut body, tail.as_str());
            assert(body@ =~= "edge "@ + debug_str(e.id@) + " references missing source node "@ + debug_str(e.source@));
            push_if(&mut out, !has_source, at_message(r, body.as_str()));
            let has_target = node_before(records, n, e.target.as_str());
            let mut body = quoted_after("edge ", e.id.as_str());
            let tail = quoted_after(" references missing target node ", e.target.as_str());
            push_str(&mut body, tail.as_str());
            assert(body@ =~= "edge "@ + debug_str(e.id@) + " references missing target node "@ + debug_str(e.target@));
            push_if(&mut out, !has_target, at_message(r, body.as_str()));
            let collides = node_before(records, n, e.id.as_str());
            let mut body = quoted_after("edge id ", e.id.as_str());
            push_str(&mut body, " collides with a node id; the node would shadow it");
            push_if(&mut out, collides, at_message(r, body.as_str()));
        }
    }
    assert(views(out@) =~= edge_reference_messages(records@, i as int));
    out
}

/// Reference messages of alias record `i`.
fn alias_references_of(records: &Vec<LoadedRecord>, i: usize) -> (out: Vec<String>)
    requires
        i < records@.len(),
    ensures
        views(out@) == alias_reference_messages(records@, i as int),
{
    let r = &records[i];
    let mut out: Vec<String> = Vec::new();
    assert(views(out@) =~= Seq::<Seq<char>>::empty());
    if let Record::Alias(a) = &r.record {
        let folded = to_lowercase(a.alias.as_str());
        if no_later_alias(records, i, folded.as_str()) {
            let n = records.len();
            let has_node = node_before(records, n, a.node.as_str());
            let mut body = quoted_after("alias ", a.alias.as_str());
            let tail = quoted_after(" references missing node ", a.node.as_str());
            push_str(&mut body, tail.as_str());
            assert(body@ =~= "alias "@ + debug_str(a.alias@) + " references missing node "@ + debug_str(a.node@));
            push_if(&mut out, !has_node, at_message(r, body.as_str()));
            let collides = node_folding(records, folded.as_str());
            let mut body = quoted_after("alias ", a.alias.as_str());
            push_str(&mut body, " collides with a node id; the node would shadow it");
            push_if(&mut out, collides, at_message(r, body.as_str()));
        }
    }
    assert(views(out@) =~= alias_reference_messages(records@, i as int));
    out
}

/// Everything wrong with a set of records: each record's own problems, then
/// the references of edges, then those of aliases. With `sources`, every
/// evidence entry is also resolved against the loaded source files.
pub fn validate_records(
    config: &Config,
    records: &Vec<LoadedRecord>,
    sources: Option<&SourceTable>,
) -> (out: Vec<String>)
    ensures
        views(out@) == validation_messages(*config, records@, table_view(sources)),
{
    let ghost tv = table_view(sources);
    let mut out: Vec<String> = Vec::new();
    assert(views(out@) =~= Seq::<Seq<char>>::empty());
    let mut i: usize = 0;
    while i < records.len()
        invariant
            i <= records@.len(),
            tv == table_view(sources),
            views(out@) == all_record_messages(*config, records@, i as nat, tv),
        decreases records.len() - i,
    {
        let part = record_messages_of(config, records, i, sources);
        let ghost before = out@;
        extend_strings(&mut out, part);
        proof {
            lemma_views_concat(before, part@);
        }
        assert(views(out@) =~= all_record_messages(*config, records@, (i + 1) as nat, tv));
        i = i + 1;
    }
    let ghost first = views(out@);
    let mut i: usize = 0;
    assert(views(out@) =~= first + all_edge_references(records@, 0));
    while i < records.len()
        invariant
            i <= records@.len(),
            views(out@) == first + all_edge_references(records@, i as nat),
        decreases records.len() - i,
    {
        let part = edge_references_of(records, i);
        let ghost before = out@;
        extend_strings(&mut out, part);
        proof {
            lemma_views_concat(before, part@);
        }
        assert(views(out@) =~= first + all_edge_references(records@, (i + 1) as nat));
        i = i + 1;
    }
    let ghost second = views(out@);
    let mut i: usize = 0;
    assert(views(out@) =~= second + all_alias_references(records@, 0));
    while i < records.len()
        invariant
            i <= records@.len(),
            views(out@) == second + all_alias_references(records@, i as nat),
        decreases records.len() - i,
    {
        let part = alias_references_of(records, i);
        let ghost before = out@;
        extend_strings(&mut out, part);
        proof {
            lemma_views_concat(before, part@);
        }
        assert(views(out@) =~= second + all_alias_references(records@, (i + 1) as nat));
        i = i + 1;
    }
    out
}

/// A message of either part is a message of their concatenation.
proof fn lemma_in_concat(a: Seq<Seq<char>>, b: Seq<Seq<char>>, m: Seq<char>)
    ensures
        (a.contains(m) || b.contains(m)) ==> (a + b).contains(m),
{
    if a.contains(m) {
        let k = choose|k: int| 0 <= k < a.len() && a[k] == m;
        assert((a + b)[k] == m);
    } else if b.contains(m) {
        let k = choose|k: int| 0 <= k < b.len() && b[k] == m;
        assert((a + b)[a.len() + k] == m);
    }
}

/// A message about record `i` on its own is among the messages of the first
/// `n` records.
proof fn lemma_record_in_all(
    cfg: Config,
    recs: Seq<LoadedRecord>,
    n: nat,
    sources: Option<Seq<(String, core::result::Result<SourceText, GraphError>)>>,
    i: int,
    m: Seq<char>,
)
    requires
        0 <= i < n,
        record_messages(cfg, recs, i, sources).contains(m),
    ensures
        all_record_messages(cfg, recs, n, sources).contains(m),
    decreases n,
{
    if i < n - 1 {
        lemma_record_in_all(cfg, recs, (n - 1) as nat, sources, i, m);
    }
    lemma_in_concat(
        all_record_messages(cfg, recs, (n - 1) as nat, sources),
        record_messages(cfg, recs, n - 1, sources),
        m,
    );
}

/// A message about evidence entry `j` is among the messages of the first `n`
/// entries.
proof fn lemma_entry_in_all(
    r: LoadedRecord,
    evs: Seq<Evidence>,
    n: nat,
    sources: Option<Seq<(String, core::result::Result<SourceText, GraphError>)>>,
    j: int,
    m: Seq<char>,
)
    requires
        0 <= j < n,
        evidence_entry_messages(r, j as nat, evs[j], sources).contains(m),
    ensures
        evidence_messages(r, evs, n, sources).contains(m),
    decreases n,
{
    if j < n - 1 {
        lemma_entry_in_all(r, evs, (n - 1) as nat, sources, j, m);
    }
    lemma_in_concat(
        evidence_messages(r, evs, (n - 1) as nat, sources),
        evidence_entry_messages(r, (n - 1) as nat, evs[n - 1], sources),
        m,
    );
}

/// A reference message of edge record `i` is among those of the first `n`.
proof fn lemma_edge_ref_in_all(recs: Seq<LoadedRecord>, n: nat, i: int, m: Seq<char>)
    requires
        0 <= i < n,
        edge_reference_messages(recs, i).contains(m),
    ensures
        all_edge_references(recs, n).contains(m),
    decreases n,
{
    if i < n - 1 {
        lemma_edge_ref_in_all(recs, (n - 1) as nat, i, m);
    }
    lemma_in_concat(all_edge_references(recs, (n - 1) as nat), edge_reference_messages(recs, n - 1), m);
}

/// A reference message of alias record `i` is among those of the first `n`.
proof fn lemma_alias_ref_in_all(recs: Seq<LoadedRecord>, n: nat, i: int, m: Seq<char>)
    requires
        0 <= i < n,
        alias_reference_messages(recs, i).contains(m),
    ensures
        all_alias_references(recs, n).contains(m),
    decreases n,
{
    if i < n - 1 {
        lemma_alias_ref_in_all(recs, (n - 1) as nat, i, m);
    }
    lemma_in_concat(all_alias_references(recs, (n - 1) as nat), alias_reference_messages(recs, n - 1), m);
}

/// A reviewed record that cites evidence whose own review state is not
/// `reviewed` is always reported.
pub proof fn law_reviewed_record_needs_reviewed_evidence(
    cfg: Config,
    recs: Seq<LoadedRecord>,
    sources: Option<Seq<(String, core::result::Result<SourceText, GraphError>)>>,
    i: int,
    j: int,
)
    requires
        0 <= i < recs.len(),
        0 <= j < recs[i].record.evidence_spec().len(),
        recs[i].record.review_spec() == "reviewed"@,
        evidence_review(recs[i].record.evidence_spec()[j], "reviewed"@) != "reviewed"@,
    ensures
        validation_messages(cfg, recs, sources).contains(
            at(recs[i], evidence_label(j as nat) + " on a reviewed record must be reviewed"@),
        ),
{
    let r = recs[i];
    let evs = r.record.evidence_spec();
    let e = evs[j];
    let m = at(r, evidence_label(j as nat) + " on a reviewed record must be reviewed"@);
    let method = evidence_method(e);
    let review = evidence_review(e, r.record.review_spec());
    let a = when(!method_ok(method), at(r, evidence_label(j as nat) + " invalid method "@ + debug_str(method)));
    let b = when(!review_ok(review), at(r, evidence_label(j as nat) + " invalid review state "@ + debug_str(review)));
    let c = when(r.record.review_spec() == "reviewed"@ && review != "reviewed"@, m);
    assert(c.contains(m)) by {
        assert(c[0] == m);
    }
    lemma_in_concat(a + b, c, m);
    let rest = key_messages(r, j as nat, e.extra@) + match sources {
        None => Seq::<Seq<char>>::empty(),
        Some(t) => match snapshot_spec(t, e) {
            Ok(_) => Seq::<Seq<char>>::empty(),
            Err(msg) => seq![at(r, evidence_label(j as nat) + ": "@ + msg)],
        },
    };
    lemma_in_concat(a + b + c, rest, m);
    assert(evidence_entry_messages(r, j as nat, e, sources) =~= a + b + c + rest);
    lemma_entry_in_all(r, evs, evs.len(), sources, j, m);
    let f = field_messages(cfg, recs, i);
    let g = when(!review_ok(r.record.review_spec()), at(r, "invalid review state "@ + debug_str(r.record.review_spec())));
    lemma_in_concat(f + g, evidence_messages(r, evs, evs.len(), sources), m);
    assert(record_messages(cfg, recs, i, sources) =~= f + g + evidence_messages(r, evs, evs.len(), sources));
    lemma_record_in_all(cfg, recs, recs.len(), sources, i, m);
    let all = all_record_messages(cfg, recs, recs.len(), sources);
    lemma_in_concat(all, all_edge_references(recs, recs.len()), m);
    lemma_in_concat(all + all_edge_references(recs, recs.len()), all_alias_references(recs, recs.len()), m);
}

/// From an edge with id `id`, the last edge with that id.
proof fn lemma_last_edge_with(recs: Seq<LoadedRecord>, i: int, id: Seq<char>) -> (k: int)
    requires
        0 <= i < recs.len(),
        is_edge_with_id(recs[i].record, id),
    ensures
        i <= k < recs.len(),
        is_edge_with_id(recs[k].record, id),
        last_edge(recs, k),
    decreases recs.len() - i,
{
    if exists|j: int| i < j < recs.len() && is_edge_with_id((#[trigger] recs[j]).record, id) {
        let j = choose|j: int| i < j < recs.len() && is_edge_with_id((#[trigger] recs[j]).record, id);
        lemma_last_edge_with(recs, j, id)
    } else {
        i
    }
}

/// From an alias folding to `folded`, the last alias folding to it.
proof fn lemma_last_alias_with(recs: Seq<LoadedRecord>, i: int, folded: Seq<char>) -> (k: int)
    requires
        0 <= i < recs.len(),
        is_alias_folding_to(recs[i].record, folded),
    ensures
        i <= k < recs.len(),
        is_alias_folding_to(recs[k].record, folded),
        last_alias(recs, k),
    decreases recs.len() - i,
{
    if exists|j: int| i < j < recs.len() && is_alias_folding_to((#[trigger] recs[j]).record, folded) {
        let j = choose|j: int| i < j < recs.len() && is_alias_folding_to((#[trigger] recs[j]).record, folded);
        lemma_last_alias_with(recs, j, folded)
    } else {
        i
    }
}

/// A message among the reference messages is among all messages.
proof fn lemma_references_in_all(
    cfg: Config,
    recs: Seq<LoadedRecord>,
    sources: Option<Seq<(String, core::result::Result<SourceText, GraphError>)>>,
    m: Seq<char>,
)
    ensures
        (all_edge_references(recs, recs.len()).contains(m) || all_alias_references(recs, recs.len()).contains(m))
            ==> validation_messages(cfg, recs, sources).contains(m),
{
    let all = all_record_messages(cfg, recs, recs.len(), sources);
    lemma_in_concat(all, all_edge_references(recs, recs.len()), m);
    lemma_in_concat(all + all_edge_references(recs, recs.len()), all_alias_references(recs, recs.len()), m);
}

/// An edge whose id is also a node id is always reported: the node would
/// shadow it in every lookup.
pub proof fn law_edge_id_cannot_shadow_node(
    cfg: Config,
    recs: Seq<LoadedRecord>,
    sources: Option<Seq<(String, core::result::Result<SourceText, GraphError>)>>,
    i: int,
    j: int,
)
    requires
        0 <= i < recs.len(),
        0 <= j < recs.len(),
        recs[i].record is Edge,
        recs[j].record is Node,
        recs[j].record->Node_0.id@ == recs[i].record->Edge_0.id@,
    ensures
        exists|k: int|
            0 <= k < recs.len() && validation_messages(cfg, recs, sources).contains(
                at(
                    #[trigger] recs[k],
                    "edge id "@ + debug_str(recs[i].record->Edge_0.id@)
                        + " collides with a node id; the node would shadow it"@,
                ),
            ),
{
    let id = recs[i].record->Edge_0.id@;
    let k = lemma_last_edge_with(recs, i, id);
    let r = recs[k];
    let e = r.record->Edge_0;
    assert(is_node_with_id(recs[j].record, id));
    assert(node_exists(recs, id));
    let m = at(r, "edge id "@ + debug_str(id) + " collides with a node id; the node would shadow it"@);
    let a = when(
        !node_exists(recs, e.source@),
        at(r, "edge "@ + debug_str(e.id@) + " references missing source node "@ + debug_str(e.source@)),
    );
    let b = when(
        !node_exists(recs, e.target@),
        at(r, "edge "@ + debug_str(e.id@) + " references missing target node "@ + debug_str(e.target@)),
    );
    let c = when(node_exists(recs, e.id@), m);
    assert(c[0] == m);
    lemma_in_concat(a + b, c, m);
    assert(edge_reference_messages(recs, k) == a + b + c);
    lemma_edge_ref_in_all(recs, recs.len(), k, m);
    lemma_references_in_all(cfg, recs, sources, m);
}

/// An alias that equals a node id up to case is always reported: the node
/// would shadow it in every lookup.
pub proof fn law_alias_cannot_shadow_node(
    cfg: Config,
    recs: Seq<LoadedRecord>,
    sources: Option<Seq<(String, core::result::Result<SourceText, GraphError>)>>,
    i: int,
    j: int,
)
    requires
        0 <= i < recs.len(),
        0 <= j < recs.len(),
        recs[i].record is Alias,
        recs[j].record is Node,
        lowercase(recs[j].record->Node_0.id@) == lowercase(recs[i].record->Alias_0.alias@),
    ensures
        exists|k: int|
            0 <= k < recs.len() && (#[trigger] recs[k]).record is Alias && lowercase(
                recs[k].record->Alias_0.alias@,
            ) == lowercase(recs[i].record->Alias_0.alias@) && validation_messages(
                cfg,
                recs,
                sources,
            ).contains(
                at(
                    recs[k],
                    "alias "@ + debug_str(recs[k].record->Alias_0.alias@)
                        + " collides with a node id; the node would shadow it"@,
                ),
            ),
{
    let folded = lowercase(recs[i].record->Alias_0.alias@);
    let k = lemma_last_alias_with(recs, i, folded);
    let r = recs[k];
    let a = r.record->Alias_0;
    assert(is_node_folding_to(recs[j].record, folded));
    assert(node_folds_to(recs, folded));
    let m = at(r, "alias "@ + debug_str(a.alias@) + " collides with a node id; the node would shadow it"@);
    let x = when(
        !node_exists(recs, a.node@),
        at(r, "alias "@ + debug_str(a.alias@) + " references missing node "@ + debug_str(a.node@)),
    );
    let c = when(node_folds_to(recs, lowercase(a.alias@)), m);
    assert(c[0] == m);
    lemma_in_concat(x, c, m);
    assert(alias_reference_messages(recs, k) == x + c);
    lemma_alias_ref_in_all(recs, recs.len(), k, m);
    lemma_references_in_all(cfg, recs, sources, m);
}

/// A node whose id an earlier node already has is always reported.
pub proof fn law_duplicate_node_ids_are_reported(
    cfg: Config,
    recs: Seq<LoadedRecord>,
    sources: Option<Seq<(String, core::result::Result<SourceText, GraphError>)>>,
    i: int,
    j: int,
)
    requires
        0 <= j < i < recs.len(),
        recs[i].record is Node,
        recs[j].record is Node,
        recs[j].record->Node_0.id@ == recs[i].record->Node_0.id@,
    ensures
        validation_messages(cfg, recs, sources).contains(
            at(recs[i], "duplicate node id "@ + debug_str(recs[i].record->Node_0.id@)),
        ),
{
    let r = recs[i];
    let n = r.record->Node_0;
    assert(is_node_with_id(recs[j].record, n.id@));
    let m = at(r, "duplicate node id "@ + debug_str(n.id@));
    let a = when(!valid_id_spec(n.id@), at(r, "invalid or missing id"@));
    let b = when(earlier_node(recs, i, n.id@), m);
    assert(b[0] == m);
    let c = when(!views(cfg.node_types@).contains(n.node_type@), at(r, "unknown node type "@ + debug_str(n.node_type@)));
    let d = when(all_white(n.name@), at(r, "node name must be non-empty"@));
    lemma_in_concat(a, b, m);
    lemma_in_concat(a + b, c, m);
    lemma_in_concat(a + b + c, d, m);
    assert(field_messages(cfg, recs, i) == a + b + c + d);
    let g = when(!review_ok(r.record.review_spec()), at(r, "invalid review state "@ + debug_str(r.record.review_spec())));
    let ev = evidence_messages(r, r.record.evidence_spec(), r.record.evidence_spec().len(), sources);
    lemma_in_concat(field_messages(cfg, recs, i), g, m);
    lemma_in_concat(field_messages(cfg, recs, i) + g, ev, m);
    lemma_record_in_all(cfg, recs, recs.len(), sources, i, m);
    let all = all_record_messages(cfg, recs, recs.len(), sources);
    lemma_in_concat(all, all_edge_references(recs, recs.len()), m);
    lemma_in_concat(all + all_edge_references(recs, recs.len()), all_alias_references(recs, recs.len()), m);
}

/// The refusal for a record that is not reviewed: the index and the lock are
/// canonical, reviewed-only artifacts.
pub open spec fn noncanonical_message(r: LoadedRecord) -> Seq<char> {
    location(r) + ": "@ + r.record.kind_spec() + " "@ + debug_str(r.record.subject_spec()) + " is "@
        + debug_str(r.record.review_spec()) + "; canonical lock/build accepts only reviewed records"@
}

/// Refusals for the first `n` records, in order.
pub open spec fn noncanonical_messages(recs: Seq<LoadedRecord>, n: nat) -> Seq<Seq<char>>
    decreases n,
{
    if n == 0 {
        seq![]
    } else {
        noncanonical_messages(recs, (n - 1) as nat) + when(
            recs[n - 1].record.review_spec() != "reviewed"@,
            noncanonical_message(recs[n - 1]),
        )
    }
}

/// Every record is reviewed.
pub open spec fn all_reviewed(recs: Seq<LoadedRecord>) -> bool {
    forall|i: int| 0 <= i < recs.len() ==> (#[trigger] recs[i]).record.review_spec() == "reviewed"@
}

/// No refusal among the first `n` records exactly when they are all reviewed.
proof fn lemma_noncanonical_empty(recs: Seq<LoadedRecord>, n: nat)
    requires
        n <= recs.len(),
    ensures
        (noncanonical_messages(recs, n).len() == 0) == (forall|i: int|
            0 <= i < n ==> (#[trigger] recs[i]).record.review_spec() == "reviewed"@),
    decreases n,
{
    if n > 0 {
        lemma_noncanonical_empty(recs, (n - 1) as nat);
    }
}

/// Accepts the records only when every one of them is reviewed; otherwise
/// the refusal names each record that is not, one per line.
pub fn canonical_records(records: &Vec<LoadedRecord>) -> (out: Result<(), GraphError>)
    ensures
        out is Ok <==> all_reviewed(records@),
        out matches Err(e) ==> e.text() == join(noncanonical_messages(records@, records@.len()), "\n"@),
{
    let mut refusals: Vec<String> = Vec::new();
    let mut i: usize = 0;
    assert(views(refusals@) =~= Seq::<Seq<char>>::empty());
    while i < records.len()
        invariant
            i <= records@.len(),
            views(refusals@) == noncanonical_messages(records@, i as nat),
        decreases records.len() - i,
    {
        let r = &records[i];
        let review = r.record.review();
        let reviewed = str_eq(review, "reviewed");
        let mut m = location_text(r);
        push_str(&mut m, ": ");
        push_str(&mut m, r.record.kind());
        push_str(&mut m, " ");
        let q = debug_quote(r.record.subject_id());
        push_str(&mut m, q.as_str());
        push_str(&mut m, " is ");
        let q = debug_quote(review);
        push_str(&mut m, q.as_str());
        push_str(&mut m, "; canonical lock/build accepts only reviewed records");
        assert(m@ =~= noncanonical_message(*r));
        push_if(&mut refusals, !reviewed, m);
        i = i + 1;
    }
    proof {
        lemma_noncanonical_empty(records@, records@.len());
    }
    if refusals.len() == 0 {
        Ok(())
    } else {
        Err(GraphError::msg(join_strings(&refusals, "\n")))
    }
}

/// The first problem of a configuration, if any.
pub open spec fn config_problem(cfg: Config) -> Option<Seq<char>> {
    if all_white(cfg.project@) {
        Some("config project must be non-empty"@)
    } else if cfg.node_types@.len() == 0 {
        Some("config node_types must be a non-empty list"@)
    } else if cfg.predicates@.len() == 0 {
        Some("config predicates must be a non-empty list"@)
    } else {
        None
    }
}

/// Checks what a configuration must hold: a project name that is not blank,
/// and at least one node type and one predicate.
pub fn check_config(config: &Config) -> (out: Result<(), GraphError>)
    ensures
        match (out, config_problem(*config)) {
            (Ok(()), None) => true,
            (Err(e), Some(m)) => e.text() == m,
            _ => false,
        },
{
    if is_blank(config.project.as_str()) {
        return Err(GraphError::msg(owned("config project must be non-empty")));
    }
    if config.node_types.len() == 0 {
        return Err(GraphError::msg(owned("config node_types must be a non-empty list")));
    }
    if config.predicates.len() == 0 {
        return Err(GraphError::msg(owned("config predicates must be a non-empty list")));
    }
    Ok(())
}


/// The records with positions `i` and `i + 1` exchanged.
pub open spec fn swap_adjacent(recs: Seq<LoadedRecord>, i: int) -> Seq<LoadedRecord> {
    recs.update(i, recs[i + 1]).update(i + 1, recs[i])
}

/// Some record before position `k` satisfies `p`.
spec fn any_before(recs: Seq<LoadedRecord>, k: int, p: spec_fn(Record) -> bool) -> bool {
    exists|j: int| 0 <= j < k && p((#[trigger] recs[j]).record)
}

/// Some record after position `k` satisfies `p`.
spec fn any_after(recs: Seq<LoadedRecord>, k: int, p: spec_fn(Record) -> bool) -> bool {
    exists|j: int| k < j < recs.len() && p((#[trigger] recs[j]).record)
}

/// Exchanging two neighbours changes what lies before or after a position
/// only for the two of them, and then only by the other neighbour.
proof fn lemma_swap_neighbours(recs: Seq<LoadedRecord>, i: int, k: int, p: spec_fn(Record) -> bool)
    requires
        0 <= i,
        i + 1 < recs.len(),
        0 <= k <= recs.len(),
    ensures
        (k <= i || k >= i + 2) ==> any_before(swap_adjacent(recs, i), k, p) == any_before(recs, k, p),
        (k < i || k >= i + 2) ==> any_after(swap_adjacent(recs, i), k, p) == any_after(recs, k, p),
        k == i && !p(recs[i].record) ==> any_before(swap_adjacent(recs, i), i, p) == any_before(recs, i + 1, p),
        k == i && !p(recs[i].record) ==> any_after(swap_adjacent(recs, i), i, p) == any_after(recs, i + 1, p),
        k == i && !p(recs[i + 1].record) ==> any_before(swap_adjacent(recs, i), i + 1, p) == any_before(recs, i, p),
        k == i && !p(recs[i + 1].record) ==> any_after(swap_adjacent(recs, i), i + 1, p) == any_after(recs, i, p),
{
    let s = swap_adjacent(recs, i);
    assert(s.len() == recs.len());
    assert(s[i] == recs[i + 1] && s[i + 1] == recs[i]);
    assert forall|j: int| 0 <= j < s.len() && j != i && j != i + 1 implies s[j] == recs[j] by {}
    // before
    if any_before(s, k, p) {
        let j = choose|j: int| 0 <= j < k && p((#[trigger] s[j]).record);
        if k <= i || k >= i + 2 {
            if j == i {
                assert(p(recs[i + 1].record));
            } else if j == i + 1 {
                assert(p(recs[i].record));
            } else {
                assert(p(recs[j].record));
            }
        }
    }
    if any_before(recs, k, p) && (k <= i || k >= i + 2) {
        let j = choose|j: int| 0 <= j < k && p((#[trigger] recs[j]).record);
        if j == i {
            assert(p(s[i + 1].record));
        } else if j == i + 1 {
            assert(p(s[i].record));
        } else {
            assert(p(s[j].record));
        }
    }
    if any_after(s, k, p) {
        let j = choose|j: int| k < j < s.len() && p((#[trigger] s[j]).record);
        if k < i || k >= i + 2 {
            if j == i {
                assert(p(recs[i + 1].record));
            } else if j == i + 1 {
                assert(p(recs[i].record));
            } else {
                assert(p(recs[j].record));
            }
        }
    }
    if any_after(recs, k, p) && (k < i || k >= i + 2) {
        let j = choose|j: int| k < j < recs.len() && p((#[trigger] recs[j]).record);
        if j == i {
            assert(p(s[i + 1].record));
        } else if j == i + 1 {
            assert(p(s[i].record));
        } else {
            assert(p(s[j].record));
        }
    }
    if k == i {
        if !p(recs[i].record) {
            if any_before(recs, i + 1, p) {
                let j = choose|j: int| 0 <= j < i + 1 && p((#[trigger] recs[j]).record);
                assert(p(s[j].record));
            }
            if any_before(s, i, p) {
                let j = choose|j: int| 0 <= j < i && p((#[trigger] s[j]).record);
                assert(p(recs[j].record));
            }
            if any_after(recs, i + 1, p) {
                let j = choose|j: int| i + 1 < j < recs.len() && p((#[trigger] recs[j]).record);
                assert(p(s[j].record));
            }
            if any_after(s, i, p) {
                let j = choose|j: int| i < j < s.len() && p((#[trigger] s[j]).record);
                assert(j != i + 1);
                assert(p(recs[j].record));
            }
        }
        if !p(recs[i + 1].record) {
            if any_before(recs, i, p) {
                let j = choose|j: int| 0 <= j < i && p((#[trigger] recs[j]).record);
                assert(p(s[j].record));
            }
            if any_before(s, i + 1, p) {
                let j = choose|j: int| 0 <= j < i + 1 && p((#[trigger] s[j]).record);
                assert(j != i);
                assert(p(recs[j].record));
            }
            if any_after(recs, i, p) {
                let j = choose|j: int| i < j < recs.len() && p((#[trigger] recs[j]).record);
                assert(j != i + 1);
                assert(p(s[j].record));
            }
            if any_after(s, i + 1, p) {
                let j = choose|j: int| i + 1 < j < s.len() && p((#[trigger] s[j]).record);
                assert(p(recs[j].record));
            }
        }
    }
}

/// The test "is a node with this id".
spec fn node_test(id: Seq<char>) -> spec_fn(Record) -> bool {
    |r: Record| is_node_with_id(r, id)
}

/// The test "is an edge with this id".
spec fn edge_test(id: Seq<char>) -> spec_fn(Record) -> bool {
    |r: Record| is_edge_with_id(r, id)
}

/// The test "is an alias folding to this form".
spec fn alias_test(folded: Seq<char>) -> spec_fn(Record) -> bool {
    |r: Record| is_alias_folding_to(r, folded)
}

/// The test "is a node whose id folds to this form".
spec fn node_fold_test(folded: Seq<char>) -> spec_fn(Record) -> bool {
    |r: Record| is_node_folding_to(r, folded)
}

/// The named record tests, as `any_before` and `any_after` see them.
proof fn lemma_named_tests(recs: Seq<LoadedRecord>, k: int, id: Seq<char>)
    ensures
        earlier_node(recs, k, id) == any_before(recs, k, node_test(id)),
        earlier_edge(recs, k, id) == any_before(recs, k, edge_test(id)),
        earlier_alias(recs, k, id) == any_before(recs, k, alias_test(id)),
        node_folds_to(recs, id) == any_before(recs, recs.len() as int, node_fold_test(id)),
        (exists|j: int| k < j < recs.len() && is_edge_with_id((#[trigger] recs[j]).record, id)) == any_after(recs, k, edge_test(id)),
        (exists|j: int| k < j < recs.len() && is_alias_folding_to((#[trigger] recs[j]).record, id)) == any_after(recs, k, alias_test(id)),
{
}

/// Where the record at position `k` of the exchanged list came from.
spec fn swapped_from(i: int, k: int) -> int {
    if k == i {
        i + 1
    } else if k == i + 1 {
        i
    } else {
        k
    }
}

/// Neighbours of different kinds: not both nodes, edges or aliases.
pub open spec fn kinds_differ(a: Record, b: Record) -> bool {
    a.kind_spec() != b.kind_spec()
}

/// A record's own messages do not change when two neighbours of different
/// kinds are exchanged; they move with the record.
proof fn lemma_record_messages_swap(
    cfg: Config,
    recs: Seq<LoadedRecord>,
    i: int,
    sources: Option<Seq<(String, core::result::Result<SourceText, GraphError>)>>,
    k: int,
)
    requires
        0 <= i,
        i + 1 < recs.len(),
        kinds_differ(recs[i].record, recs[i + 1].record),
        0 <= k < recs.len(),
    ensures
        record_messages(cfg, swap_adjacent(recs, i), k, sources) == record_messages(cfg, recs, swapped_from(i, k), sources),
{
    let s = swap_adjacent(recs, i);
    let f = swapped_from(i, k);
    assert(s[k] == recs[f]);
    let kk = if k == i || k == i + 1 { i } else { k };
    match recs[f].record {
        Record::Node(n) => {
            lemma_named_tests(s, k, n.id@);
            lemma_named_tests(recs, f, n.id@);
            lemma_swap_neighbours(recs, i, kk, node_test(n.id@));
        },
        Record::Edge(e) => {
            lemma_named_tests(s, k, e.id@);
            lemma_named_tests(recs, f, e.id@);
            lemma_swap_neighbours(recs, i, kk, edge_test(e.id@));
        },
        Record::Alias(a) => {
            lemma_named_tests(s, k, lowercase(a.alias@));
            lemma_named_tests(recs, f, lowercase(a.alias@));
            lemma_swap_neighbours(recs, i, kk, alias_test(lowercase(a.alias@)));
        },
    }
    assert(field_messages(cfg, s, k) == field_messages(cfg, recs, f));
}

/// Which nodes exist does not depend on the order of the records.
proof fn lemma_nodes_exist_swap(recs: Seq<LoadedRecord>, i: int, x: Seq<char>)
    requires
        0 <= i,
        i + 1 < recs.len(),
    ensures
        node_exists(swap_adjacent(recs, i), x) == node_exists(recs, x),
        node_folds_to(swap_adjacent(recs, i), x) == node_folds_to(recs, x),
{
    let s = swap_adjacent(recs, i);
    lemma_named_tests(s, s.len() as int, x);
    lemma_named_tests(recs, recs.len() as int, x);
    lemma_swap_neighbours(recs, i, recs.len() as int, node_test(x));
    lemma_swap_neighbours(recs, i, recs.len() as int, node_fold_test(x));
}

/// The reference messages of an edge or alias record move with it when two
/// neighbours of different kinds are exchanged.
proof fn lemma_reference_messages_swap(recs: Seq<LoadedRecord>, i: int, k: int)
    requires
        0 <= i,
        i + 1 < recs.len(),
        kinds_differ(recs[i].record, recs[i + 1].record),
        0 <= k < recs.len(),
    ensures
        (k != i && k != i + 1) ==> edge_reference_messages(swap_adjacent(recs, i), k) == edge_reference_messages(recs, k),
        (k != i && k != i + 1) ==> alias_reference_messages(swap_adjacent(recs, i), k) == alias_reference_messages(recs, k),
        edge_reference_messages(swap_adjacent(recs, i), i) + edge_reference_messages(swap_adjacent(recs, i), i + 1)
            == edge_reference_messages(recs, i) + edge_reference_messages(recs, i + 1),
        alias_reference_messages(swap_adjacent(recs, i), i) + alias_reference_messages(swap_adjacent(recs, i), i + 1)
            == alias_reference_messages(recs, i) + alias_reference_messages(recs, i + 1),
{
    let s = swap_adjacent(recs, i);
    assert(s[i] == recs[i + 1] && s[i + 1] == recs[i]);
    if k != i && k != i + 1 {
        assert(s[k] == recs[k]);
        match recs[k].record {
            Record::Edge(e) => {
                lemma_named_tests(s, k, e.id@);
                lemma_named_tests(recs, k, e.id@);
                lemma_swap_neighbours(recs, i, k, edge_test(e.id@));
                lemma_nodes_exist_swap(recs, i, e.source@);
                lemma_nodes_exist_swap(recs, i, e.target@);
                lemma_nodes_exist_swap(recs, i, e.id@);
                assert(last_edge(s, k) == last_edge(recs, k));
            },
            Record::Alias(a) => {
                lemma_named_tests(s, k, lowercase(a.alias@));
                lemma_named_tests(recs, k, lowercase(a.alias@));
                lemma_swap_neighbours(recs, i, k, alias_test(lowercase(a.alias@)));
                lemma_nodes_exist_swap(recs, i, a.node@);
                lemma_nodes_exist_swap(recs, i, lowercase(a.alias@));
                assert(last_alias(s, k) == last_alias(recs, k));
            },
            _ => {},
        }
    }
    // The pair: at most one of the two is an edge, and at most one an alias.
    match recs[i + 1].record {
        Record::Edge(e) => {
            lemma_named_tests(s, i, e.id@);
            lemma_named_tests(recs, i + 1, e.id@);
            lemma_swap_neighbours(recs, i, i, edge_test(e.id@));
            lemma_nodes_exist_swap(recs, i, e.source@);
            lemma_nodes_exist_swap(recs, i, e.target@);
            lemma_nodes_exist_swap(recs, i, e.id@);
            assert(last_edge(s, i) == last_edge(recs, i + 1));
            assert(edge_reference_messages(s, i) == edge_reference_messages(recs, i + 1));
        },
        Record::Alias(a) => {
            lemma_named_tests(s, i, lowercase(a.alias@));
            lemma_named_tests(recs, i + 1, lowercase(a.alias@));
            lemma_swap_neighbours(recs, i, i, alias_test(lowercase(a.alias@)));
            lemma_nodes_exist_swap(recs, i, a.node@);
            lemma_nodes_exist_swap(recs, i, lowercase(a.alias@));
            assert(last_alias(s, i) == last_alias(recs, i + 1));
            assert(alias_reference_messages(s, i) == alias_reference_messages(recs, i + 1));
        },
        _ => {},
    }
    match recs[i].record {
        Record::Edge(e) => {
            lemma_named_tests(s, i + 1, e.id@);
            lemma_named_tests(recs, i, e.id@);
            lemma_swap_neighbours(recs, i, i, edge_test(e.id@));
            lemma_nodes_exist_swap(recs, i, e.source@);
            lemma_nodes_exist_swap(recs, i, e.target@);
            lemma_nodes_exist_swap(recs, i, e.id@);
            assert(last_edge(s, i + 1) == last_edge(recs, i));
            assert(edge_reference_messages(s, i + 1) == edge_reference_messages(recs, i));
        },
        Record::Alias(a) => {
            lemma_named_tests(s, i + 1, lowercase(a.alias@));
            lemma_named_tests(recs, i, lowercase(a.alias@));
            lemma_swap_neighbours(recs, i, i, alias_test(lowercase(a.alias@)));
            lemma_nodes_exist_swap(recs, i, a.node@);
            lemma_nodes_exist_swap(recs, i, lowercase(a.alias@));
            assert(last_alias(s, i + 1) == last_alias(recs, i));
            assert(alias_reference_messages(s, i + 1) == alias_reference_messages(recs, i));
        },
        _ => {},
    }
    let e0: Seq<Seq<char>> = seq![];
    assert(e0 + e0 =~= e0);
    assert forall|x: Seq<Seq<char>>| e0 + x == x && x + e0 == x by {
        assert(e0 + x =~= x);
        assert(x + e0 =~= x);
    }
}

/// Exchanging two neighbours of different kinds leaves the reference
/// messages as they were, and the records' own messages as they were up to
/// order.
proof fn lemma_message_lists_swap(
    cfg: Config,
    recs: Seq<LoadedRecord>,
    i: int,
    sources: Option<Seq<(String, core::result::Result<SourceText, GraphError>)>>,
    n: nat,
)
    requires
        0 <= i,
        i + 1 < recs.len(),
        kinds_differ(recs[i].record, recs[i + 1].record),
        n <= recs.len(),
        n <= i || n >= i + 2,
    ensures
        all_edge_references(swap_adjacent(recs, i), n) == all_edge_references(recs, n),
        all_alias_references(swap_adjacent(recs, i), n) == all_alias_references(recs, n),
        n <= i ==> all_record_messages(cfg, swap_adjacent(recs, i), n, sources) == all_record_messages(cfg, recs, n, sources),
        n >= i + 2 ==> all_record_messages(cfg, swap_adjacent(recs, i), n, sources).to_multiset()
            == all_record_messages(cfg, recs, n, sources).to_multiset(),
    decreases n,
{
    let s = swap_adjacent(recs, i);
    if n == 0 {
    } else if n <= i {
        lemma_message_lists_swap(cfg, recs, i, sources, (n - 1) as nat);
        lemma_record_messages_swap(cfg, recs, i, sources, n - 1);
        lemma_reference_messages_swap(recs, i, n - 1);
    } else if n == i + 2 {
        lemma_message_lists_swap(cfg, recs, i, sources, i as nat);
        lemma_record_messages_swap(cfg, recs, i, sources, i);
        lemma_record_messages_swap(cfg, recs, i, sources, i + 1);
        lemma_reference_messages_swap(recs, i, i);
        let ea = all_edge_references(recs, i as nat);
        assert(all_edge_references(s, (i + 1) as nat) == ea + edge_reference_messages(s, i));
        assert(all_edge_references(recs, (i + 1) as nat) == ea + edge_reference_messages(recs, i));
        assert(all_edge_references(s, n) == ea + edge_reference_messages(s, i) + edge_reference_messages(s, i + 1));
        assert(all_edge_references(recs, n) == ea + edge_reference_messages(recs, i) + edge_reference_messages(recs, i + 1));
        assert(all_edge_references(s, n) =~= ea + (edge_reference_messages(s, i) + edge_reference_messages(s, i + 1)));
        assert(all_edge_references(recs, n) =~= ea + (edge_reference_messages(recs, i) + edge_reference_messages(recs, i + 1)));
        let la = all_alias_references(recs, i as nat);
        assert(all_alias_references(s, (i + 1) as nat) == la + alias_reference_messages(s, i));
        assert(all_alias_references(recs, (i + 1) as nat) == la + alias_reference_messages(recs, i));
        assert(all_alias_references(s, n) == la + alias_reference_messages(s, i) + alias_reference_messages(s, i + 1));
        assert(all_alias_references(recs, n) == la + alias_reference_messages(recs, i) + alias_reference_messages(recs, i + 1));
        assert(all_alias_references(s, n) =~= la + (alias_reference_messages(s, i) + alias_reference_messages(s, i + 1)));
        assert(all_alias_references(recs, n) =~= la + (alias_reference_messages(recs, i) + alias_reference_messages(recs, i + 1)));
        let a = all_record_messages(cfg, recs, i as nat, sources);
        let r0 = record_messages(cfg, recs, i, sources);
        let r1 = record_messages(cfg, recs, i + 1, sources);
        assert(all_record_messages(cfg, s, (i + 1) as nat, sources) == a + r1);
        assert(all_record_messages(cfg, recs, (i + 1) as nat, sources) == a + r0);
        assert(all_record_messages(cfg, s, n, sources) == (a + r1) + r0);
        assert(all_record_messages(cfg, recs, n, sources) == (a + r0) + r1);
        vstd::seq_lib::lemma_multiset_commutative(a + r1, r0);
        vstd::seq_lib::lemma_multiset_commutative(a, r1);
        vstd::seq_lib::lemma_multiset_commutative(a + r0, r1);
        vstd::seq_lib::lemma_multiset_commutative(a, r0);
        assert(a.to_multiset().add(r1.to_multiset()).add(r0.to_multiset()) =~= a.to_multiset().add(r0.to_multiset()).add(
            r1.to_multiset(),
        ));
    } else {
        lemma_message_lists_swap(cfg, recs, i, sources, (n - 1) as nat);
        lemma_record_messages_swap(cfg, recs, i, sources, n - 1);
        lemma_reference_messages_swap(recs, i, n - 1);
        let a1 = all_record_messages(cfg, s, (n - 1) as nat, sources);
        let a2 = all_record_messages(cfg, recs, (n - 1) as nat, sources);
        let r = record_messages(cfg, recs, n - 1, sources);
        vstd::seq_lib::lemma_multiset_commutative(a1, r);
        vstd::seq_lib::lemma_multiset_commutative(a2, r);
    }
}

/// Validation does not depend on how records of different kinds are
/// interleaved: exchanging a neighbouring node and edge (or edge and alias,
/// or node and alias) yields the same messages, up to their order. So an edge
/// may come before the nodes it joins, and an alias before its node.
pub proof fn law_validation_ignores_order_between_kinds(
    cfg: Config,
    recs: Seq<LoadedRecord>,
    sources: Option<Seq<(String, core::result::Result<SourceText, GraphError>)>>,
    i: int,
)
    requires
        0 <= i,
        i + 1 < recs.len(),
        kinds_differ(recs[i].record, recs[i + 1].record),
    ensures
        validation_messages(cfg, swap_adjacent(recs, i), sources).to_multiset() == validation_messages(
            cfg,
            recs,
            sources,
        ).to_multiset(),
{
    let s = swap_adjacent(recs, i);
    let n = recs.len();
    assert(s.len() == n);
    lemma_message_lists_swap(cfg, recs, i, sources, n);
    let a1 = all_record_messages(cfg, s, n, sources);
    let a2 = all_record_messages(cfg, recs, n, sources);
    let rest = all_edge_references(recs, n) + all_alias_references(recs, n);
    assert(validation_messages(cfg, s, sources) =~= a1 + rest);
    assert(validation_messages(cfg, recs, sources) =~= a2 + rest);
    vstd::seq_lib::lemma_multiset_commutative(a1, rest);
    vstd::seq_lib::lemma_multiset_commutative(a2, rest);
}

/// Every reference message of edge record `k < n` is among those of the first `n`.
proof fn lemma_edge_references_kept(recs: Seq<LoadedRecord>, n: nat, k: int, m: Seq<char>)
    requires
        0 <= k < n <= recs.len(),
        edge_reference_messages(recs, k).contains(m),
    ensures
        all_edge_references(recs, n).contains(m),
    decreases n,
{
    let prev = all_edge_references(recs, (n - 1) as nat);
    let last = edge_reference_messages(recs, n - 1);
    if k < n - 1 {
        lemma_edge_references_kept(recs, (n - 1) as nat, k, m);
        let x = choose|x: int| 0 <= x < prev.len() && prev[x] == m;
        assert((prev + last)[x] == m);
    } else {
        let x = choose|x: int| 0 <= x < last.len() && last[x] == m;
        assert((prev + last)[prev.len() + x] == m);
    }
}

/// An edge whose source (or target) is the id of no node record at all is
/// reported as referencing a missing node; among edges sharing an id, the
/// last one is the one checked.
pub proof fn law_edge_to_unknown_node_is_reported(
    cfg: Config,
    recs: Seq<LoadedRecord>,
    sources: Option<Seq<(String, core::result::Result<SourceText, GraphError>)>>,
    i: int,
)
    requires
        0 <= i < recs.len(),
        recs[i].record is Edge,
        forall|j: int| i < j < recs.len() ==> !is_edge_with_id((#[trigger] recs[j]).record, recs[i].record->Edge_0.id@),
    ensures
        (forall|j: int| 0 <= j < recs.len() ==> !is_node_with_id((#[trigger] recs[j]).record, recs[i].record->Edge_0.source@))
            ==> validation_messages(cfg, recs, sources).contains(
            at(
                recs[i],
                "edge "@ + debug_str(recs[i].record->Edge_0.id@) + " references missing source node "@ + debug_str(
                    recs[i].record->Edge_0.source@,
                ),
            ),
        ),
        (forall|j: int| 0 <= j < recs.len() ==> !is_node_with_id((#[trigger] recs[j]).record, recs[i].record->Edge_0.target@))
            ==> validation_messages(cfg, recs, sources).contains(
            at(
                recs[i],
                "edge "@ + debug_str(recs[i].record->Edge_0.id@) + " references missing target node "@ + debug_str(
                    recs[i].record->Edge_0.target@,
                ),
            ),
        ),
{
    let e = recs[i].record->Edge_0;
    let r = recs[i];
    let ms = edge_reference_messages(recs, i);
    assert(last_edge(recs, i));
    let n = recs.len();
    let a = all_record_messages(cfg, recs, n, sources);
    let ea = all_edge_references(recs, n);
    let la = all_alias_references(recs, n);
    assert(validation_messages(cfg, recs, sources) == a + ea + la);
    let src_msg = at(r, "edge "@ + debug_str(e.id@) + " references missing source node "@ + debug_str(e.source@));
    let tgt_msg = at(r, "edge "@ + debug_str(e.id@) + " references missing target node "@ + debug_str(e.target@));
    if forall|j: int| 0 <= j < recs.len() ==> !is_node_with_id((#[trigger] recs[j]).record, e.source@) {
        assert(!node_exists(recs, e.source@));
        assert(ms[0] == src_msg);
        lemma_edge_references_kept(recs, n, i, src_msg);
        let x = choose|x: int| 0 <= x < ea.len() && ea[x] == src_msg;
        assert((a + ea + la)[a.len() + x] == src_msg);
    }
    if forall|j: int| 0 <= j < recs.len() ==> !is_node_with_id((#[trigger] recs[j]).record, e.target@) {
        assert(!node_exists(recs, e.target@));
        let first = when(!node_exists(recs, e.source@), at(r, "edge "@ + debug_str(e.id@) + " references missing source node "@ + debug_str(e.source@)));
        assert(ms[first.len() as int] == tgt_msg);
        lemma_edge_references_kept(recs, n, i, tgt_msg);
        let x = choose|x: int| 0 <= x < ea.len() && ea[x] == tgt_msg;
        assert((a + ea + la)[a.len() + x] == tgt_msg);
    }
}

} // verus!
