//! The evidence lock: accepting the current spans of all cited evidence,
//! auditing cited evidence against the accepted spans, and the Git context
//! that a lock records.

use vstd::prelude::*;
use crate::error::GraphError;
use crate::evidence::{snapshot_evidence, snapshot_spec, SourceTable, SourceText};
use crate::keyed::{keyed_get, keyed_insert, keys_increasing, map_view};
use crate::model::{
    EvidenceLock, EvidenceSnapshot, Evidence, GitContext, LoadedRecord,
    LockedEvidence, SnapshotView, LOCK_VERSION,
};
use crate::text::{decimal, decimal_string, owned, push_str, str_eq, views};
use crate::validate::{all_reviewed, canonical_records, noncanonical_messages};

verus! {

/// What resolving an evidence entry against the loaded sources gives
/// (`snapshot_spec`), kept folded in proofs about many entries.
#[verifier::opaque]
pub open spec fn resolved(
    table: Seq<(String, core::result::Result<SourceText, GraphError>)>,
    e: Evidence,
) -> Result<SnapshotView, Seq<char>> {
    snapshot_spec(table, e)
}

/// The evidence the first `n` records cite, in order.
pub open spec fn evidence_list(recs: Seq<LoadedRecord>, n: nat) -> Seq<Evidence>
    decreases n,
{
    if n == 0 {
        seq![]
    } else {
        evidence_list(recs, (n - 1) as nat) + recs[n - 1].record.evidence_spec()
    }
}

/// The snapshots of the evidence, by key (a later snapshot for a key replaces
/// an earlier one), or the message of the first entry that does not resolve.
pub open spec fn collect_spec(
    table: Seq<(String, core::result::Result<SourceText, GraphError>)>,
    evs: Seq<Evidence>,
) -> Result<Map<Seq<char>, SnapshotView>, Seq<char>>
    decreases evs.len(),
{
    if evs.len() == 0 {
        Ok(Map::empty())
    } else {
        match collect_spec(table, evs.drop_last()) {
            Err(m) => Err(m),
            Ok(map) => match resolved(table, evs.last()) {
                Err(m) => Err(m),
                Ok(s) => Ok(map.insert(s.key, s)),
            },
        }
    }
}

/// The views of the snapshots of a keyed vector.
pub open spec fn snapshot_views(m: Seq<(String, EvidenceSnapshot)>) -> Map<Seq<char>, SnapshotView> {
    map_view(m).map_values(|s: EvidenceSnapshot| s@)
}

/// The snapshots of all evidence the records cite, in increasing key order.
pub fn collect_snapshots(records: &Vec<LoadedRecord>, sources: &SourceTable) -> (out: Result<Vec<(String, EvidenceSnapshot)>, GraphError>)
    ensures
        match (out, collect_spec(sources@, evidence_list(records@, records@.len()))) {
            (Ok(v), Ok(m)) => keys_increasing(v@) && snapshot_views(v@) == m,
            (Err(e), Err(m)) => e.text() == m,
            _ => false,
        },
{
    reveal(resolved);
    let mut out: Vec<(String, EvidenceSnapshot)> = Vec::new();
    let mut i: usize = 0;
    assert(snapshot_views(out@) =~= Map::<Seq<char>, SnapshotView>::empty());
    while i < records.len()
        invariant
            i <= records@.len(),
            keys_increasing(out@),
            collect_spec(sources@, evidence_list(records@, i as nat)) == Ok::<Map<Seq<char>, SnapshotView>, Seq<char>>(snapshot_views(out@)),
        decreases records.len() - i,
    {
        let evs = records[i].record.evidence();
        let ghost done = evidence_list(records@, i as nat);
        let mut j: usize = 0;
        assert(done + evs@.take(0) =~= done);
        while j < evs.len()
            invariant
                i < records@.len(),
                evs@ == records@[i as int].record.evidence_spec(),
                done == evidence_list(records@, i as nat),
                j <= evs@.len(),
                keys_increasing(out@),
                collect_spec(sources@, done + evs@.take(j as int)) == Ok::<Map<Seq<char>, SnapshotView>, Seq<char>>(snapshot_views(out@)),
            decreases evs.len() - j,
        {
            proof {
                reveal(resolved);
            }
            let ghost prefix = done + evs@.take(j as int);
            let ghost next = done + evs@.take(j + 1);
            assert(next.drop_last() =~= prefix);
            assert(next.last() == evs@[j as int]);
            match snapshot_evidence(sources, &evs[j]) {
                Err(e) => {
                    proof {
                        lemma_collect_err_stays(sources@, records@, i as nat, j as int, e.text());
                    }
                    return Err(e);
                },
                Ok(s) => {
                    let ghost before = out@;
                    let key = s.key.clone();
                    keyed_insert(&mut out, key, s);
                    assert(snapshot_views(out@) =~= snapshot_views(before).insert(s@.key, s@));
                },
            }
            j = j + 1;
        }
        assert(evs@.take(evs@.len() as int) =~= evs@);
        assert(evidence_list(records@, (i + 1) as nat) == done + evs@);
        i = i + 1;
    }
    Ok(out)
}

/// A failure of a prefix is the failure of the whole sequence.
proof fn lemma_collect_err_prefix(
    table: Seq<(String, core::result::Result<SourceText, GraphError>)>,
    s: Seq<Evidence>,
    k: int,
    m: Seq<char>,
)
    requires
        0 <= k <= s.len(),
        collect_spec(table, s.take(k)) == Err::<Map<Seq<char>, SnapshotView>, Seq<char>>(m),
    ensures
        collect_spec(table, s) == Err::<Map<Seq<char>, SnapshotView>, Seq<char>>(m),
    decreases s.len() - k,
{
    if k < s.len() {
        assert(s.take(k + 1).drop_last() =~= s.take(k));
        lemma_collect_err_prefix(table, s, k + 1, m);
    } else {
        assert(s.take(k) =~= s);
    }
}

/// The evidence of the first `i` records begins that of the first `n`.
proof fn lemma_evidence_list_prefix(recs: Seq<LoadedRecord>, i: nat, n: nat)
    requires
        i <= n <= recs.len(),
    ensures
        evidence_list(recs, n).take(evidence_list(recs, i).len() as int) == evidence_list(recs, i),
        evidence_list(recs, i).len() <= evidence_list(recs, n).len(),
    decreases n,
{
    if i < n {
        lemma_evidence_list_prefix(recs, i, (n - 1) as nat);
        let a = evidence_list(recs, (n - 1) as nat);
        let b = recs[n - 1].record.evidence_spec();
        assert((a + b).take(evidence_list(recs, i).len() as int) =~= a.take(evidence_list(recs, i).len() as int));
    } else {
        assert(evidence_list(recs, n).take(evidence_list(recs, n).len() as int) =~= evidence_list(recs, n));
    }
}

/// A failure while collecting the evidence of a prefix of the records is the
/// failure of collecting all of it.
proof fn lemma_collect_err_stays(
    table: Seq<(String, core::result::Result<SourceText, GraphError>)>,
    recs: Seq<LoadedRecord>,
    i: nat,
    j: int,
    m: Seq<char>,
)
    requires
        i < recs.len(),
        0 <= j < recs[i as int].record.evidence_spec().len(),
        collect_spec(table, evidence_list(recs, i) + recs[i as int].record.evidence_spec().take(j + 1))
            == Err::<Map<Seq<char>, SnapshotView>, Seq<char>>(m),
    ensures
        collect_spec(table, evidence_list(recs, recs.len())) == Err::<Map<Seq<char>, SnapshotView>, Seq<char>>(m),
{
    let whole = evidence_list(recs, recs.len());
    let next = evidence_list(recs, i) + recs[i as int].record.evidence_spec().take(j + 1);
    lemma_evidence_list_prefix(recs, (i + 1) as nat, recs.len());
    let upto = evidence_list(recs, (i + 1) as nat);
    assert(upto.take(next.len() as int) =~= next);
    assert(whole.take(next.len() as int) =~= upto.take(next.len() as int));
    lemma_collect_err_prefix(table, whole, next.len() as int, m);
}

/// The accepted form of a snapshot: its path, selector and span digest.
pub open spec fn locked_of(s: SnapshotView) -> (Seq<char>, crate::model::SelectorView, Seq<char>) {
    (s.path, s.selector, s.span_sha256)
}

/// The view of an accepted span.
pub open spec fn locked_view(l: LockedEvidence) -> (Seq<char>, crate::model::SelectorView, Seq<char>) {
    (l.path@, l.selector@, l.span_sha256@)
}

/// The lock entries for the snapshots, in the same key order.
fn lock_entries(snapshots: &Vec<(String, EvidenceSnapshot)>) -> (out: Vec<(String, LockedEvidence)>)
    ensures
        out@.len() == snapshots@.len(),
        forall|k: int|
            0 <= k < out@.len() ==> (#[trigger] out@[k]).0@ == snapshots@[k].0@ && locked_view(out@[k].1)
                == locked_of(snapshots@[k].1@),
{
    let mut out: Vec<(String, LockedEvidence)> = Vec::new();
    let mut i: usize = 0;
    while i < snapshots.len()
        invariant
            i <= snapshots@.len(),
            out@.len() == i,
            forall|k: int|
                0 <= k < i ==> (#[trigger] out@[k]).0@ == snapshots@[k].0@ && locked_view(out@[k].1)
                    == locked_of(snapshots@[k].1@),
        decreases snapshots.len() - i,
    {
        let s = &snapshots[i].1;
        let entry = LockedEvidence {
            path: s.path.clone(),
            selector: s.selector.clone(),
            span_sha256: s.span_sha256.clone(),
        };
        out.push((snapshots[i].0.clone(), entry));
        i = i + 1;
    }
    out
}

/// The accepted spans of a lock by key, in their view.
pub open spec fn lock_map(entries: Seq<(String, LockedEvidence)>) -> Map<Seq<char>, (Seq<char>, crate::model::SelectorView, Seq<char>)> {
    map_view(entries).map_values(|l: LockedEvidence| locked_view(l))
}

/// Message when a lock must come from a clean worktree and does not.
pub open spec fn unclean_message() -> Seq<char> {
    "cannot lock: --require-clean-worktree requires a clean Git worktree"@
}

/// A lock may be written: when a clean worktree is required, the Git context
/// must exist and record a clean worktree.
pub open spec fn worktree_ok(git: Option<GitContext>, require_clean_worktree: bool) -> bool {
    !require_clean_worktree || (git is Some && git->0.worktree_clean)
}

/// Refuses to lock from a worktree that is not clean when that is required.
pub fn check_clean_worktree(git: &Option<GitContext>, require_clean_worktree: bool) -> (out: Result<(), GraphError>)
    ensures
        out is Ok <==> worktree_ok(*git, require_clean_worktree),
        out matches Err(e) ==> e.text() == unclean_message(),
{
    let clean = match git {
        Some(context) => context.worktree_clean,
        None => false,
    };
    if require_clean_worktree && !clean {
        Err(GraphError::msg(owned("cannot lock: --require-clean-worktree requires a clean Git worktree")))
    } else {
        Ok(())
    }
}

/// The new evidence lock for the records: only reviewed records are accepted,
/// a clean worktree is checked when required, and every cited span must
/// resolve. The lock holds the current version, the given time and Git
/// context, and the accepted span of every evidence key.
pub fn lock_evidence(
    records: &Vec<LoadedRecord>,
    sources: &SourceTable,
    git: Option<GitContext>,
    require_clean_worktree: bool,
    updated_at: String,
) -> (out: Result<EvidenceLock, GraphError>)
    ensures
        !all_reviewed(records@) ==> (out matches Err(e) && e.text() == crate::text::join(
            noncanonical_messages(records@, records@.len()),
            "\n"@,
        )),
        all_reviewed(records@) && !worktree_ok(git, require_clean_worktree) ==> (out matches Err(e)
            && e.text() == unclean_message()),
        all_reviewed(records@) && worktree_ok(git, require_clean_worktree) ==> match (
            out,
            collect_spec(sources@, evidence_list(records@, records@.len())),
        ) {
            (Ok(lock), Ok(m)) => {
                &&& lock.version == LOCK_VERSION
                &&& lock.updated_at == Some(updated_at)
                &&& lock.git == git
                &&& keys_increasing(lock.evidence@)
                &&& lock_map(lock.evidence@) == m.map_values(|s: SnapshotView| locked_of(s))
            },
            (Err(e), Err(msg)) => e.text() == msg,
            _ => false,
        },
{
    canonical_records(records)?;
    check_clean_worktree(&git, require_clean_worktree)?;
    let snapshots = collect_snapshots(records, sources)?;
    let entries = lock_entries(&snapshots);
    proof {
        crate::keyed::lemma_map_view(snapshots@);
        crate::keyed::lemma_map_view(entries@);
        assert(keys_increasing(entries@)) by {
            assert forall|a: int, b: int| 0 <= a < b < entries@.len() implies crate::keyed::lex_lt(
                (#[trigger] entries@[a]).0@,
                (#[trigger] entries@[b]).0@,
            ) by {
                assert(snapshots@[a].0@ == entries@[a].0@ && snapshots@[b].0@ == entries@[b].0@);
            }
        }
        let m = snapshot_views(snapshots@);
        assert forall|k: Seq<char>| #[trigger] lock_map(entries@).contains_key(k) <==> m.contains_key(k) by {
            if lock_map(entries@).contains_key(k) {
                let x = choose|x: int| 0 <= x < entries@.len() && (#[trigger] entries@[x]).0@ == k;
                assert(snapshots@[x].0@ == k);
            }
            if m.contains_key(k) {
                let x = choose|x: int| 0 <= x < snapshots@.len() && (#[trigger] snapshots@[x]).0@ == k;
                assert(entries@[x].0@ == k);
            }
        }
        assert forall|k: Seq<char>| #[trigger] lock_map(entries@).contains_key(k) implies lock_map(entries@)[k]
            == m.map_values(|s: SnapshotView| locked_of(s))[k] by {
            let x = choose|x: int| 0 <= x < entries@.len() && (#[trigger] entries@[x]).0@ == k;
            assert(snapshots@[x].0@ == k);
            assert(map_view(entries@)[entries@[x].0@] == entries@[x].1);
            assert(map_view(snapshots@)[snapshots@[x].0@] == snapshots@[x].1);
        }
        assert(lock_map(entries@) =~= m.map_values(|s: SnapshotView| locked_of(s)));
    }
    Ok(EvidenceLock { version: LOCK_VERSION, updated_at: Some(updated_at), git, evidence: entries })
}

/// The lock state of a resolved span: `unlocked` when no span was accepted
/// for its key, `stale` when the accepted span differs, `fresh` otherwise.
pub open spec fn status_spec(span_sha256: Seq<char>, locked: Option<Seq<char>>) -> Seq<char> {
    match locked {
        None => "unlocked"@,
        Some(l) => if l != span_sha256 {
            "stale"@
        } else {
            "fresh"@
        },
    }
}

/// The lock state of a resolved span given the accepted one, if any.
pub fn snapshot_status(snapshot: &EvidenceSnapshot, locked: Option<&LockedEvidence>) -> (out: &'static str)
    ensures
        out@ == status_spec(
            snapshot.span_sha256@,
            match locked {
                Some(l) => Some(l.span_sha256@),
                None => None,
            },
        ),
{
    match locked {
        None => "unlocked",
        Some(value) => if !str_eq(value.span_sha256.as_str(), snapshot.span_sha256.as_str()) {
            "stale"
        } else {
            "fresh"
        },
    }
}

/// One audited evidence entry.
#[derive(Debug)]
pub struct AuditRow {
    /// Kind of the citing record.
    pub subject_kind: String,
    /// Identifier of the citing record.
    pub subject_id: String,
    /// `unlocked`, `stale`, `fresh`, or `unresolved`.
    pub lock_status: String,
    /// The resolved span and the digest accepted for it, or why the
    /// evidence did not resolve (with the path as cited).
    pub outcome: Result<(EvidenceSnapshot, Option<String>), (String, String)>,
}

/// The accepted span digest for a key, if any.
pub open spec fn locked_span(entries: Seq<(String, LockedEvidence)>, key: Seq<char>) -> Option<Seq<char>> {
    if map_view(entries).contains_key(key) {
        Some(map_view(entries)[key].span_sha256@)
    } else {
        None
    }
}

/// What auditing evidence `e` of record `r` against the lock reports.
pub open spec fn audit_row_spec(
    row: AuditRow,
    table: Seq<(String, core::result::Result<SourceText, GraphError>)>,
    entries: Seq<(String, LockedEvidence)>,
    r: LoadedRecord,
    e: Evidence,
) -> bool {
    &&& row.subject_kind@ == r.record.kind_spec()
    &&& row.subject_id@ == r.record.subject_spec()
    &&& match resolved(table, e) {
        Ok(s) => match row.outcome {
            Ok((snap, locked)) => {
                &&& snap@ == s
                &&& match locked {
                    Some(l) => Some(l@),
                    None => None,
                } == locked_span(entries, s.key)
                &&& row.lock_status@ == status_spec(s.span_sha256, locked_span(entries, s.key))
            },
            Err(_) => false,
        },
        Err(m) => {
            &&& row.outcome == Err::<(EvidenceSnapshot, Option<String>), (String, String)>((e.path, row.outcome->Err_0.1))
            &&& row.outcome->Err_0.1@ == m
            &&& row.lock_status@ == "unresolved"@
        },
    }
}

/// The audit row of one evidence entry.
fn audit_row(r: &LoadedRecord, e: &Evidence, sources: &SourceTable, lock: &EvidenceLock) -> (out: AuditRow)
    ensures
        audit_row_spec(out, sources@, lock.evidence@, *r, *e),
{
    reveal(resolved);
    let subject_kind = owned(r.record.kind());
    let subject_id = owned(r.record.subject_id());
    match snapshot_evidence(sources, e) {
        Ok(snapshot) => {
            let locked = keyed_get(&lock.evidence, snapshot.key.as_str());
            let status = owned(snapshot_status(&snapshot, locked));
            let locked_sha = match locked {
                Some(l) => Some(l.span_sha256.clone()),
                None => None,
            };
            AuditRow { subject_kind, subject_id, lock_status: status, outcome: Ok((snapshot, locked_sha)) }
        },
        Err(error) => {
            let message = error.message();
            AuditRow {
                subject_kind,
                subject_id,
                lock_status: owned("unresolved"),
                outcome: Err((e.path.clone(), message)),
            }
        },
    }
}

/// The cited evidence of every record, in order, paired with its record.
pub open spec fn cited(recs: Seq<LoadedRecord>, n: nat) -> Seq<(LoadedRecord, Evidence)>
    decreases n,
{
    if n == 0 {
        seq![]
    } else {
        cited(recs, (n - 1) as nat) + recs[n - 1].record.evidence_spec().map_values(
            |e: Evidence| (recs[n - 1], e),
        )
    }
}

/// Every cited evidence entry, audited against the lock: resolved spans are
/// `fresh`, `stale` or `unlocked`; entries that do not resolve are reported
/// as `unresolved` with the reason.
pub fn audit_evidence(records: &Vec<LoadedRecord>, sources: &SourceTable, lock: &EvidenceLock) -> (out: Vec<AuditRow>)
    ensures
        out@.len() == cited(records@, records@.len()).len(),
        forall|k: int|
            0 <= k < out@.len() ==> audit_row_spec(
                #[trigger] out@[k],
                sources@,
                lock.evidence@,
                cited(records@, records@.len())[k].0,
                cited(records@, records@.len())[k].1,
            ),
{
    let mut out: Vec<AuditRow> = Vec::new();
    let mut i: usize = 0;
    while i < records.len()
        invariant
            i <= records@.len(),
            out@.len() == cited(records@, i as nat).len(),
            forall|k: int|
                0 <= k < out@.len() ==> audit_row_spec(
                    #[trigger] out@[k],
                    sources@,
                    lock.evidence@,
                    cited(records@, i as nat)[k].0,
                    cited(records@, i as nat)[k].1,
                ),
        decreases records.len() - i,
    {
        let r = &records[i];
        let evs = r.record.evidence();
        let ghost base = cited(records@, i as nat);
        let ghost add = evs@.map_values(|e: Evidence| (records@[i as int], e));
        let mut j: usize = 0;
        while j < evs.len()
            invariant
                i < records@.len(),
                *r == records@[i as int],
                evs@ == r.record.evidence_spec(),
                base == cited(records@, i as nat),
                add == evs@.map_values(|e: Evidence| (records@[i as int], e)),
                j <= evs@.len(),
                out@.len() == base.len() + j,
                forall|k: int|
                    0 <= k < out@.len() ==> audit_row_spec(
                        #[trigger] out@[k],
                        sources@,
                        lock.evidence@,
                        (base + add)[k].0,
                        (base + add)[k].1,
                    ),
            decreases evs.len() - j,
        {
            let row = audit_row(r, &evs[j], sources, lock);
            out.push(row);
            assert((base + add)[base.len() + j] == (records@[i as int], evs@[j as int]));
            j = j + 1;
        }
        assert(cited(records@, (i + 1) as nat) == base + add);
        i = i + 1;
    }
    out
}

/// Evidence entries whose keys agree resolve to the same span. Keys hold the
/// path and eighty bits of the selector's digest, so this fails only on a
/// digest collision.
pub open spec fn keys_determine_spans(
    table: Seq<(String, core::result::Result<SourceText, GraphError>)>,
    evs: Seq<Evidence>,
) -> bool {
    forall|a: int, b: int|
        #![trigger evs[a], evs[b]]
        0 <= a < evs.len() && 0 <= b < evs.len() && resolved(table, evs[a]) is Ok && resolved(
            table,
            evs[b],
        ) is Ok && resolved(table, evs[a])->Ok_0.key == resolved(table, evs[b])->Ok_0.key
            ==> resolved(table, evs[a])->Ok_0.span_sha256 == resolved(
            table,
            evs[b],
        )->Ok_0.span_sha256
}

/// When collecting succeeds, every entry resolves, and the collected
/// snapshot for its key has its span.
proof fn lemma_collected_spans(
    table: Seq<(String, core::result::Result<SourceText, GraphError>)>,
    evs: Seq<Evidence>,
    m: Map<Seq<char>, SnapshotView>,
)
    requires
        collect_spec(table, evs) == Ok::<Map<Seq<char>, SnapshotView>, Seq<char>>(m),
        keys_determine_spans(table, evs),
    ensures
        forall|a: int|
            0 <= a < evs.len() ==> {
                let r = resolved(table, #[trigger] evs[a]);
                &&& r is Ok
                &&& m.contains_key(r->Ok_0.key)
                &&& m[r->Ok_0.key].span_sha256 == r->Ok_0.span_sha256
            },
    decreases evs.len(),
{
    if evs.len() > 0 {
        let p = evs.drop_last();
        let mp = collect_spec(table, p)->Ok_0;
        assert(keys_determine_spans(table, p)) by {
            assert forall|a: int, b: int|
                #![trigger p[a], p[b]]
                0 <= a < p.len() && 0 <= b < p.len() && resolved(table, p[a]) is Ok && resolved(
                    table,
                    p[b],
                ) is Ok && resolved(table, p[a])->Ok_0.key == resolved(table, p[b])->Ok_0.key
                    implies resolved(table, p[a])->Ok_0.span_sha256 == resolved(
                    table,
                    p[b],
                )->Ok_0.span_sha256 by {
                assert(p[a] == evs[a] && p[b] == evs[b]);
            }
        }
        lemma_collected_spans(table, p, mp);
        let last = evs.last();
        let sl = resolved(table, last)->Ok_0;
        assert forall|a: int| 0 <= a < evs.len() implies {
            let r = resolved(table, #[trigger] evs[a]);
            &&& r is Ok
            &&& m.contains_key(r->Ok_0.key)
            &&& m[r->Ok_0.key].span_sha256 == r->Ok_0.span_sha256
        } by {
            if a < evs.len() - 1 {
                assert(evs[a] == p[a]);
                let sa = resolved(table, evs[a])->Ok_0;
                if sa.key == sl.key {
                    assert(evs[evs.len() - 1] == last);
                }
            }
        }
    }
}

/// The cited entries of the records are their evidence, in order.
proof fn lemma_cited_evidence(recs: Seq<LoadedRecord>, n: nat)
    requires
        n <= recs.len(),
    ensures
        cited(recs, n).len() == evidence_list(recs, n).len(),
        forall|k: int| 0 <= k < cited(recs, n).len() ==> (#[trigger] cited(recs, n)[k]).1 == evidence_list(recs, n)[k],
    decreases n,
{
    if n > 0 {
        lemma_cited_evidence(recs, (n - 1) as nat);
        let a = cited(recs, (n - 1) as nat);
        let b = evidence_list(recs, (n - 1) as nat);
        let evs = recs[n - 1].record.evidence_spec();
        assert forall|k: int| 0 <= k < cited(recs, n).len() implies (#[trigger] cited(recs, n)[k]).1 == evidence_list(recs, n)[k] by {
            if k >= a.len() {
                assert(cited(recs, n)[k] == (recs[n - 1], evs[k - a.len()]));
            } else {
                assert(cited(recs, n)[k] == a[k]);
            }
        }
    }
}

/// Auditing right after locking, from the same sources, finds every cited
/// span fresh: the lock accepted exactly the spans that the audit resolves.
pub proof fn law_lock_then_audit_is_fresh(
    table: Seq<(String, core::result::Result<SourceText, GraphError>)>,
    recs: Seq<LoadedRecord>,
    entries: Seq<(String, LockedEvidence)>,
    m: Map<Seq<char>, SnapshotView>,
    k: int,
)
    requires
        collect_spec(table, evidence_list(recs, recs.len())) == Ok::<Map<Seq<char>, SnapshotView>, Seq<char>>(m),
        lock_map(entries) == m.map_values(|s: SnapshotView| locked_of(s)),
        keys_determine_spans(table, evidence_list(recs, recs.len())),
        0 <= k < cited(recs, recs.len()).len(),
    ensures
        resolved(table, cited(recs, recs.len())[k].1) is Ok,
        status_spec(
            resolved(table, cited(recs, recs.len())[k].1)->Ok_0.span_sha256,
            locked_span(entries, resolved(table, cited(recs, recs.len())[k].1)->Ok_0.key),
        ) == "fresh"@,
{
    let evs = evidence_list(recs, recs.len());
    lemma_cited_evidence(recs, recs.len());
    lemma_collected_spans(table, evs, m);
    let e = cited(recs, recs.len())[k].1;
    assert(e == evs[k]);
    let s = resolved(table, evs[k])->Ok_0;
    assert(m.contains_key(s.key));
    assert(lock_map(entries).contains_key(s.key));
    assert(map_view(entries).contains_key(s.key));
    assert(lock_map(entries)[s.key] == locked_view(map_view(entries)[s.key]));
    assert(locked_span(entries, s.key) == Some(s.span_sha256));
}

/// How many rows have lock status `status`.
pub open spec fn count_status(rows: Seq<AuditRow>, status: Seq<char>) -> nat
    decreases rows.len(),
{
    if rows.len() == 0 {
        0
    } else {
        count_status(rows.drop_last(), status) + if rows.last().lock_status@ == status {
            1nat
        } else {
            0nat
        }
    }
}

/// How many rows there are of each lock status, in increasing status order.
pub fn status_counts(rows: &Vec<AuditRow>) -> (out: Vec<(String, usize)>)
    ensures
        keys_increasing(out@),
        forall|s: Seq<char>|
            #![trigger count_status(rows@, s)]
            map_view(out@).contains_key(s) <==> count_status(rows@, s) > 0,
        forall|s: Seq<char>|
            #![trigger count_status(rows@, s)]
            map_view(out@).contains_key(s) ==> map_view(out@)[s] == count_status(rows@, s),
{
    let mut out: Vec<(String, usize)> = Vec::new();
    let mut i: usize = 0;
    while i < rows.len()
        invariant
            i <= rows@.len(),
            keys_increasing(out@),
            forall|s: Seq<char>|
                #![trigger count_status(rows@.take(i as int), s)]
                map_view(out@).contains_key(s) <==> count_status(rows@.take(i as int), s) > 0,
            forall|s: Seq<char>|
                #![trigger count_status(rows@.take(i as int), s)]
                map_view(out@).contains_key(s) ==> map_view(out@)[s] == count_status(rows@.take(i as int), s),
            forall|s: Seq<char>| #![trigger count_status(rows@.take(i as int), s)] count_status(rows@.take(i as int), s) <= i,
        decreases rows.len() - i,
    {
        let status = rows[i].lock_status.as_str();
        let ghost prev = rows@.take(i as int);
        let ghost next = rows@.take(i + 1);
        assert(next.drop_last() =~= prev);
        assert(next.last() == rows@[i as int]);
        let current: usize = match keyed_get(&out, status) {
            Some(n) => *n,
            None => 0,
        };
        assert(count_status(prev, status@) == current);
        assert(current <= i);
        let ghost before = out@;
        keyed_insert(&mut out, owned(status), current + 1);
        assert forall|s: Seq<char>| #![trigger count_status(next, s)] map_view(out@).contains_key(s) <==> count_status(next, s) > 0 by {
            assert(count_status(next, s) == count_status(prev, s) + if rows@[i as int].lock_status@ == s { 1nat } else { 0nat });
        }
        assert forall|s: Seq<char>| #![trigger count_status(next, s)] map_view(out@).contains_key(s) ==> map_view(out@)[s] == count_status(next, s) by {
            assert(count_status(next, s) == count_status(prev, s) + if rows@[i as int].lock_status@ == s { 1nat } else { 0nat });
        }
        assert forall|s: Seq<char>| #![trigger count_status(next, s)] count_status(next, s) <= i + 1 by {
            assert(count_status(next, s) == count_status(prev, s) + if rows@[i as int].lock_status@ == s { 1nat } else { 0nat });
        }
        i = i + 1;
    }
    assert(rows@.take(rows@.len() as int) =~= rows@);
    out
}

/// How the Git context of a lock relates to the current one.
pub open spec fn git_status_spec(locked: Option<GitContext>, current: Option<GitContext>) -> Seq<char> {
    match (locked, current) {
        (None, _) => "not_recorded"@,
        (Some(_), None) => "unavailable"@,
        (Some(l), Some(c)) => if l.head@ == c.head@ {
            "same_commit"@
        } else {
            "different_commit"@
        },
    }
}

/// How the Git context recorded by a lock relates to the current worktree:
/// `not_recorded`, `unavailable`, `same_commit` or `different_commit`. A
/// commit change does not make evidence stale.
pub fn git_lock_status(locked: &Option<GitContext>, current: &Option<GitContext>) -> (out: &'static str)
    ensures
        out@ == git_status_spec(*locked, *current),
{
    match (locked, current) {
        (None, _) => "not_recorded",
        (Some(_), None) => "unavailable",
        (Some(l), Some(c)) => if str_eq(l.head.as_str(), c.head.as_str()) {
            "same_commit"
        } else {
            "different_commit"
        },
    }
}

/// How many rows are not fresh.
pub open spec fn nonfresh_count(rows: Seq<AuditRow>) -> nat
    decreases rows.len(),
{
    if rows.len() == 0 {
        0
    } else {
        nonfresh_count(rows.drop_last()) + if rows.last().lock_status@ != "fresh"@ {
            1nat
        } else {
            0nat
        }
    }
}

/// The outcome of checking a lock's integrity requirements.
#[derive(Debug, Clone)]
pub struct VerifyReport {
    /// No requirement failed.
    pub valid: bool,
    /// How many cited spans are not fresh.
    pub nonfresh: usize,
    /// The requirements that failed, in order.
    pub failures: Vec<String>,
    /// How the lock's Git context relates to the current one.
    pub git_status: String,
}

/// The failed requirements: not every span fresh, a different or unrecorded
/// commit, a worktree that is not clean.
pub open spec fn verify_failures(
    nonfresh: nat,
    git_status: Seq<char>,
    current: Option<GitContext>,
    require_fresh: bool,
    require_same_commit: bool,
    require_clean_worktree: bool,
) -> Seq<Seq<char>> {
    crate::validate::when(require_fresh && nonfresh > 0, "evidence is not fresh"@) + crate::validate::when(
        require_same_commit && git_status != "same_commit"@,
        "Git HEAD differs from the lock or was not recorded"@,
    ) + crate::validate::when(
        require_clean_worktree && !(current is Some && current->0.worktree_clean),
        "current Git worktree is not clean"@,
    )
}

/// Checks the requirements asked of the evidence and the lock.
pub fn verify_lock(
    rows: &Vec<AuditRow>,
    locked_git: &Option<GitContext>,
    current_git: &Option<GitContext>,
    require_fresh: bool,
    require_same_commit: bool,
    require_clean_worktree: bool,
) -> (out: VerifyReport)
    ensures
        out.nonfresh == nonfresh_count(rows@),
        out.git_status@ == git_status_spec(*locked_git, *current_git),
        views(out.failures@) == verify_failures(
            nonfresh_count(rows@),
            git_status_spec(*locked_git, *current_git),
            *current_git,
            require_fresh,
            require_same_commit,
            require_clean_worktree,
        ),
        out.valid == (out.failures@.len() == 0),
{
    let mut nonfresh: usize = 0;
    let mut i: usize = 0;
    while i < rows.len()
        invariant
            i <= rows@.len(),
            nonfresh == nonfresh_count(rows@.take(i as int)),
            nonfresh <= i,
        decreases rows.len() - i,
    {
        assert(rows@.take(i + 1).drop_last() =~= rows@.take(i as int));
        if !str_eq(rows[i].lock_status.as_str(), "fresh") {
            nonfresh = nonfresh + 1;
        }
        i = i + 1;
    }
    assert(rows@.take(rows@.len() as int) =~= rows@);
    let status = git_lock_status(locked_git, current_git);
    let mut failures: Vec<String> = Vec::new();
    assert(views(failures@) =~= Seq::<Seq<char>>::empty());
    crate::text::push_if(&mut failures, require_fresh && nonfresh > 0, owned("evidence is not fresh"));
    crate::text::push_if(
        &mut failures,
        require_same_commit && !str_eq(status, "same_commit"),
        owned("Git HEAD differs from the lock or was not recorded"),
    );
    let clean = match current_git {
        Some(c) => c.worktree_clean,
        None => false,
    };
    crate::text::push_if(&mut failures, require_clean_worktree && !clean, owned("current Git worktree is not clean"));
    let valid = failures.len() == 0;
    VerifyReport { valid, nonfresh, failures, git_status: owned(status) }
}

/// The rows whose lock status is not `fresh`, in order.
pub open spec fn not_fresh_rows(rows: Seq<AuditRow>) -> Seq<AuditRow> {
    rows.filter(|r: AuditRow| r.lock_status@ != "fresh"@)
}

/// A verify report counts as not fresh every row whose status is anything
/// but `fresh`: stale, unlocked and unresolved rows alike.
pub proof fn law_nonfresh_counts_every_row_not_fresh(rows: Seq<AuditRow>)
    ensures
        nonfresh_count(rows) == not_fresh_rows(rows).len(),
        nonfresh_count(rows) == 0 <==> forall|k: int| 0 <= k < rows.len() ==> (#[trigger] rows[k]).lock_status@ == "fresh"@,
    decreases rows.len(),
{
    reveal(Seq::filter);
    if rows.len() > 0 {
        law_nonfresh_counts_every_row_not_fresh(rows.drop_last());
        assert(not_fresh_rows(rows) == if rows.last().lock_status@ != "fresh"@ {
            not_fresh_rows(rows.drop_last()).push(rows.last())
        } else {
            not_fresh_rows(rows.drop_last())
        });
        if nonfresh_count(rows) == 0 {
            assert forall|k: int| 0 <= k < rows.len() implies (#[trigger] rows[k]).lock_status@ == "fresh"@ by {
                if k < rows.len() - 1 {
                    assert(rows.drop_last()[k] == rows[k]);
                }
            }
        }
        if forall|k: int| 0 <= k < rows.len() ==> (#[trigger] rows[k]).lock_status@ == "fresh"@ {
            assert forall|k: int| 0 <= k < rows.drop_last().len() implies (#[trigger] rows.drop_last()[k]).lock_status@ == "fresh"@ by {
                assert(rows.drop_last()[k] == rows[k]);
            }
            assert(rows[rows.len() - 1] == rows.last());
        }
    }
}

/// When fresh evidence is required, a report without failures means every
/// cited span is fresh; and a row that is not fresh always makes the
/// requirement fail.
pub proof fn law_required_freshness_admits_only_fresh_rows(
    rows: Seq<AuditRow>,
    git_status: Seq<char>,
    current: Option<GitContext>,
    require_same_commit: bool,
    require_clean_worktree: bool,
)
    ensures
        verify_failures(nonfresh_count(rows), git_status, current, true, require_same_commit, require_clean_worktree).len() == 0
            ==> forall|k: int| 0 <= k < rows.len() ==> (#[trigger] rows[k]).lock_status@ == "fresh"@,
        (exists|k: int| 0 <= k < rows.len() && (#[trigger] rows[k]).lock_status@ != "fresh"@) ==> verify_failures(
            nonfresh_count(rows),
            git_status,
            current,
            true,
            require_same_commit,
            require_clean_worktree,
        ).contains("evidence is not fresh"@),
{
    law_nonfresh_counts_every_row_not_fresh(rows);
    let f = verify_failures(nonfresh_count(rows), git_status, current, true, require_same_commit, require_clean_worktree);
    if nonfresh_count(rows) > 0 {
        assert(f[0] == "evidence is not fresh"@);
    }
}

/// The text a Git command printed, trimmed, when it succeeded and printed
/// UTF-8; `None` otherwise.
pub open spec fn git_output_spec(success: bool, stdout: Seq<u8>) -> Option<Seq<char>> {
    if success && vstd::utf8::valid_utf8(stdout) {
        Some(crate::text::trim(vstd::utf8::decode_utf8(stdout)))
    } else {
        None
    }
}

/// The trimmed text a Git command printed, when it succeeded.
pub fn git_output_text(success: bool, stdout: &[u8]) -> (out: Option<String>)
    ensures
        match out {
            Some(t) => git_output_spec(success, stdout@) == Some(t@),
            None => git_output_spec(success, stdout@) is None,
        },
{
    if !success {
        return None;
    }
    match crate::evidence::utf8_text(stdout) {
        None => None,
        Some(text) => Some(crate::text::trim_str(text.as_str())),
    }
}

/// The repository context from the outputs of `git rev-parse
/// --is-inside-work-tree`, `git rev-parse HEAD`, `git rev-parse HEAD^{tree}`,
/// `git symbolic-ref --short -q HEAD` and `git status --porcelain
/// --untracked-files=normal`; `None` outside a worktree or when HEAD or its
/// tree cannot be read.
pub open spec fn git_context_spec(
    inside: Option<Seq<char>>,
    head: Option<Seq<char>>,
    tree: Option<Seq<char>>,
    branch: Option<Seq<char>>,
    status: Option<Seq<char>>,
) -> Option<(Seq<char>, Seq<char>, Option<Seq<char>>, bool)> {
    if inside != Some("true"@) || head is None || tree is None {
        None
    } else {
        Some(
            (
                head->0,
                tree->0,
                match branch {
                    Some(b) => if b.len() == 0 {
                        None
                    } else {
                        Some(b)
                    },
                    None => None,
                },
                status is Some && status->0.len() == 0,
            ),
        )
    }
}

/// The view of an optional string.
pub open spec fn opt_view(o: Option<String>) -> Option<Seq<char>> {
    match o {
        Some(s) => Some(s@),
        None => None,
    }
}

/// The view of an optional Git context.
pub open spec fn git_view(g: Option<GitContext>) -> Option<(Seq<char>, Seq<char>, Option<Seq<char>>, bool)> {
    match g {
        Some(c) => Some((c.head@, c.tree@, opt_view(c.branch), c.worktree_clean)),
        None => None,
    }
}

/// Repository context when the project is inside a Git worktree. Git is
/// optional: projects outside a worktree simply have none.
pub fn git_context(
    inside: Option<String>,
    head: Option<String>,
    tree: Option<String>,
    branch: Option<String>,
    status: Option<String>,
) -> (out: Option<GitContext>)
    ensures
        git_view(out) == git_context_spec(opt_view(inside), opt_view(head), opt_view(tree), opt_view(branch), opt_view(status)),
{
    let is_inside = match &inside {
        Some(v) => str_eq(v.as_str(), "true"),
        None => false,
    };
    if !is_inside {
        return None;
    }
    let head = match head {
        Some(h) => h,
        None => return None,
    };
    let tree = match tree {
        Some(t) => t,
        None => return None,
    };
    let branch = match branch {
        Some(b) => if b.as_str().is_empty() {
            None
        } else {
            Some(b)
        },
        None => None,
    };
    let worktree_clean = match &status {
        Some(s) => s.as_str().is_empty(),
        None => false,
    };
    Some(GitContext { head, tree, branch, worktree_clean })
}

/// The message for a lock written by a newer format version.
pub open spec fn newer_lock_message(path: Seq<char>, version: u32) -> Seq<char> {
    path + ": lock version "@ + decimal(version as nat) + " is newer than this binary supports (3); upgrade project-graph"@
}

/// Refuses a lock whose format version is newer than this one.
pub fn check_lock_version(path: &str, version: u32) -> (out: Result<(), GraphError>)
    ensures
        out is Ok <==> version <= LOCK_VERSION,
        out matches Err(e) ==> e.text() == newer_lock_message(path@, version),
{
    if version > LOCK_VERSION {
        let mut m = owned(path);
        push_str(&mut m, ": lock version ");
        let d = decimal_string(version as usize);
        push_str(&mut m, d.as_str());
        push_str(&mut m, " is newer than this binary supports (3); upgrade project-graph");
        Err(GraphError::msg(m))
    } else {
        Ok(())
    }
}

/// Moving an intact span keeps its lock state: when an evidence entry
/// resolves in two versions of its sources to the same quoted text (at any
/// lines), it has the same key and span digest, so any lock finds it in the
/// same state.
pub proof fn law_moved_span_keeps_status(
    before: Seq<(String, core::result::Result<SourceText, GraphError>)>,
    after: Seq<(String, core::result::Result<SourceText, GraphError>)>,
    e: Evidence,
    entries: Seq<(String, LockedEvidence)>,
)
    requires
        resolved(before, e) is Ok,
        resolved(after, e) is Ok,
        resolved(before, e)->Ok_0.quote == resolved(after, e)->Ok_0.quote,
    ensures
        resolved(before, e)->Ok_0.key == resolved(after, e)->Ok_0.key,
        resolved(before, e)->Ok_0.span_sha256 == resolved(after, e)->Ok_0.span_sha256,
        status_spec(resolved(before, e)->Ok_0.span_sha256, locked_span(entries, resolved(before, e)->Ok_0.key))
            == status_spec(resolved(after, e)->Ok_0.span_sha256, locked_span(entries, resolved(after, e)->Ok_0.key)),
{
    reveal(resolved);
}

} // verus!
