//! Reading assertion files and naming a project: which lines of a JSONL file
//! hold records, which source files the evidence cites, and the project name
//! that initialization records.

use vstd::prelude::*;
use crate::evidence::{lines_of, split_lines};
use crate::lock::evidence_list;
use crate::model::LoadedRecord;
use crate::text::{owned, replace_char, replace_char_str, starts_with_char, trim, trim_str, views};

verus! {

/// The record lines among the first `n` lines: each trimmed, with its
/// one-based number, skipping blank lines and `#` comments.
pub open spec fn jsonl_spec(lines: Seq<Seq<char>>, n: nat) -> Seq<(int, Seq<char>)>
    decreases n,
{
    if n == 0 {
        seq![]
    } else {
        let t = trim(lines[n - 1]);
        jsonl_spec(lines, (n - 1) as nat) + if t.len() == 0 || t[0] == '#' {
            seq![]
        } else {
            seq![(n as int, t)]
        }
    }
}

/// The view of numbered lines.
pub open spec fn numbered_view(v: Seq<(usize, String)>) -> Seq<(int, Seq<char>)> {
    v.map_values(|e: (usize, String)| (e.0 as int, e.1@))
}

/// The record lines of a JSONL assertion file: trimmed, with their one-based
/// line numbers; blank lines and lines starting with `#` are skipped.
pub fn jsonl_entries(content: &str) -> (out: Vec<(usize, String)>)
    ensures
        numbered_view(out@) == jsonl_spec(lines_of(content@), lines_of(content@).len()),
{
    let lines = split_lines(content);
    let ghost ls = lines_of(content@);
    let mut out: Vec<(usize, String)> = Vec::new();
    let mut i: usize = 0;
    assert(numbered_view(out@) =~= Seq::<(int, Seq<char>)>::empty());
    while i < lines.len()
        invariant
            ls == views(lines@),
            i <= lines@.len(),
            numbered_view(out@) == jsonl_spec(ls, i as nat),
        decreases lines.len() - i,
    {
        let t = trim_str(lines[i].as_str());
        let ghost before = out@;
        assert(ls[i as int] == lines@[i as int]@);
        if !(t.as_str().is_empty() || starts_with_char(t.as_str(), '#')) {
            out.push((i + 1, t));
            assert(numbered_view(out@) =~= numbered_view(before).push(((i + 1) as int, trim(ls[i as int]))));
        } else {
            assert(numbered_view(out@) =~= numbered_view(before) + Seq::<(int, Seq<char>)>::empty());
        }
        i = i + 1;
    }
    out
}

/// The name a new project gets: the one given, else the name of its
/// directory, else `project`.
pub fn project_name(name: Option<String>, dir_name: Option<String>) -> (out: String)
    ensures
        out@ == match name {
            Some(n) => n@,
            None => match dir_name {
                Some(d) => d@,
                None => "project"@,
            },
        },
{
    match name {
        Some(n) => n,
        None => match dir_name {
            Some(d) => d,
            None => owned("project"),
        },
    }
}

/// Some evidence of the records cites `path` (with `/` separators).
pub open spec fn cites(recs: Seq<LoadedRecord>, path: Seq<char>) -> bool {
    exists|i: int|
        0 <= i < evidence_list(recs, recs.len()).len() && replace_char(
            (#[trigger] evidence_list(recs, recs.len())[i]).path@,
            '\\',
            '/',
        ) == path
}

/// The source files the records' evidence cites, with `/` separators, each
/// once, in the order they are first cited.
pub fn source_paths(records: &Vec<LoadedRecord>) -> (out: Vec<String>)
    ensures
        views(out@).no_duplicates(),
        forall|p: Seq<char>| #[trigger] views(out@).contains(p) <==> cites(records@, p),
{
    let mut out: Vec<String> = Vec::new();
    let mut i: usize = 0;
    while i < records.len()
        invariant
            i <= records@.len(),
            views(out@).no_duplicates(),
            forall|p: Seq<char>|
                #[trigger] views(out@).contains(p) <==> exists|k: int|
                    0 <= k < evidence_list(records@, i as nat).len() && replace_char(
                        (#[trigger] evidence_list(records@, i as nat)[k]).path@,
                        '\\',
                        '/',
                    ) == p,
        decreases records.len() - i,
    {
        let evs = records[i].record.evidence();
        let ghost base = evidence_list(records@, i as nat);
        let mut j: usize = 0;
        while j < evs.len()
            invariant
                i < records@.len(),
                evs@ == records@[i as int].record.evidence_spec(),
                base == evidence_list(records@, i as nat),
                j <= evs@.len(),
                views(out@).no_duplicates(),
                forall|p: Seq<char>|
                    #[trigger] views(out@).contains(p) <==> exists|k: int|
                        0 <= k < (base + evs@.take(j as int)).len() && replace_char(
                            (#[trigger] (base + evs@.take(j as int))[k]).path@,
                            '\\',
                            '/',
                        ) == p,
            decreases evs.len() - j,
        {
            let path = replace_char_str(evs[j].path.as_str(), '\\', '/');
            let ghost before = views(out@);
            let ghost s0 = base + evs@.take(j as int);
            let ghost s1 = base + evs@.take(j + 1);
            assert(s1 =~= s0.push(evs@[j as int]));
            if !crate::text::list_contains(&out, path.as_str()) {
                out.push(path);
                assert(views(out@) =~= before.push(replace_char(evs@[j as int].path@, '\\', '/')));
            }
            assert forall|p: Seq<char>|
                #[trigger] views(out@).contains(p) <==> exists|k: int|
                    0 <= k < s1.len() && replace_char((#[trigger] s1[k]).path@, '\\', '/') == p by {
                let last = replace_char(evs@[j as int].path@, '\\', '/');
                if views(out@).contains(p) && p != last {
                    assert(before.contains(p)) by {
                        let x = choose|x: int| 0 <= x < views(out@).len() && views(out@)[x] == p;
                        if x < before.len() {
                            assert(before[x] == p);
                        }
                    }
                    let k = choose|k: int| 0 <= k < s0.len() && replace_char((#[trigger] s0[k]).path@, '\\', '/') == p;
                    assert(s1[k] == s0[k]);
                }
                if p == last {
                    assert(s1[s0.len() as int] == evs@[j as int]);
                    if !before.contains(p) {
                        assert(views(out@)[before.len() as int] == p);
                    } else {
                        let x = choose|x: int| 0 <= x < before.len() && before[x] == p;
                        assert(views(out@)[x] == p);
                    }
                }
                if exists|k: int| 0 <= k < s1.len() && replace_char((#[trigger] s1[k]).path@, '\\', '/') == p {
                    let k = choose|k: int| 0 <= k < s1.len() && replace_char((#[trigger] s1[k]).path@, '\\', '/') == p;
                    if k < s0.len() {
                        assert(s0[k] == s1[k]);
                        assert(before.contains(p));
                        let x = choose|x: int| 0 <= x < before.len() && before[x] == p;
                        assert(views(out@)[x] == p);
                    }
                }
            }
            j = j + 1;
        }
        assert(evs@.take(evs@.len() as int) =~= evs@);
        assert(evidence_list(records@, (i + 1) as nat) == base + evs@);
        i = i + 1;
    }
    out
}

} // verus!
