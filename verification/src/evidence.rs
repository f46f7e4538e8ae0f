//! Evidence selectors, the evidence key, and resolving a selector to a span of
//! source lines.

use vstd::prelude::*;
use vstd::utf8::{decode_utf8, encode_utf8, valid_utf8};
use crate::error::GraphError;
use crate::hash::{hex_lower, sha256, sha256_hex};
use crate::model::{Evidence, EvidenceSelector, EvidenceSnapshot, SelectorView, SnapshotView};
use crate::text::{
    chars_of, debug_quote, debug_str, decimal, decimal_string, has_char, has_substr, is_blank,
    join, owned, push_char, push_str, replace_char, replace_char_str, str_contains, str_eq, trim,
    views,
};

verus! {

/// Some `extra` key of the evidence is exactly `key`.
pub open spec fn has_extra_key(e: Evidence, key: Seq<char>) -> bool {
    exists|i: int| 0 <= i < e.extra@.len() && (#[trigger] e.extra@[i]).0@ == key
}

/// The start anchor a selector uses: `start_anchor`, or else `anchor`.
pub open spec fn chosen_start(e: Evidence) -> Option<Seq<char>> {
    match e.start_anchor {
        Some(s) => Some(s@),
        None => match e.anchor {
            Some(a) => Some(a@),
            None => None,
        },
    }
}

/// The end anchor a selector uses: `end_anchor`, or else the start anchor.
pub open spec fn chosen_end(e: Evidence, start: Seq<char>) -> Seq<char> {
    match e.end_anchor {
        Some(s) => s@,
        None => start,
    }
}

/// The selector that the evidence names, or the reason it names none.
pub open spec fn selector_spec(e: Evidence) -> Result<SelectorView, Seq<char>> {
    if has_extra_key(e, "line"@) || has_extra_key(e, "line_start"@) || has_extra_key(
        e,
        "line_end"@,
    ) {
        Err("Line-number evidence is not supported; use start_anchor/end_anchor"@)
    } else if chosen_start(e) is None || trim(chosen_start(e)->0).len() == 0 {
        Err("Evidence requires a non-empty start_anchor"@)
    } else {
        let start = chosen_start(e)->0;
        let end = chosen_end(e, start);
        if trim(end).len() == 0 {
            Err("Evidence end_anchor must be a non-empty string"@)
        } else if start.contains('\n') || end.contains('\n') {
            Err("Evidence anchors must each fit on one source line"@)
        } else if e.start_occurrence == Some(0usize) || e.end_occurrence == Some(0usize) {
            Err("evidence occurrences must be positive integers"@)
        } else {
            Ok(
                SelectorView {
                    start_anchor: start,
                    end_anchor: end,
                    start_occurrence: e.start_occurrence,
                    end_occurrence: e.end_occurrence,
                },
            )
        }
    }
}

/// Whether some extra key of the evidence is exactly `key`.
fn extra_has_key(e: &Evidence, key: &str) -> (res: bool)
    ensures
        res == has_extra_key(*e, key@),
{
    let mut i: usize = 0;
    while i < e.extra.len()
        invariant
            i <= e.extra@.len(),
            forall|k: int| 0 <= k < i ==> (#[trigger] e.extra@[k]).0@ != key@,
        decreases e.extra.len() - i,
    {
        if str_eq(e.extra[i].0.as_str(), key) {
            assert(e.extra@[i as int].0@ == key@);
            return true;
        }
        i = i + 1;
    }
    false
}

/// The selector an evidence entry names: its anchors and occurrences.
pub fn evidence_selector(evidence: &Evidence) -> (out: Result<EvidenceSelector, GraphError>)
    ensures
        match (out, selector_spec(*evidence)) {
            (Ok(s), Ok(v)) => s@ == v,
            (Err(e), Err(m)) => e.text() == m,
            _ => false,
        },
{
    if extra_has_key(evidence, "line") || extra_has_key(evidence, "line_start") || extra_has_key(
        evidence,
        "line_end",
    ) {
        return Err(GraphError::msg(owned("Line-number evidence is not supported; use start_anchor/end_anchor")));
    }
    let chosen: Option<&String> = match &evidence.start_anchor {
        Some(s) => Some(s),
        None => match &evidence.anchor {
            Some(a) => Some(a),
            None => None,
        },
    };
    let start: &String = match chosen {
        None => {
            return Err(GraphError::msg(owned("Evidence requires a non-empty start_anchor")));
        },
        Some(s) => {
            if is_blank(s.as_str()) {
                return Err(GraphError::msg(owned("Evidence requires a non-empty start_anchor")));
            }
            s
        },
    };
    let end: &String = match &evidence.end_anchor {
        Some(e) => e,
        None => start,
    };
    if is_blank(end.as_str()) {
        return Err(GraphError::msg(owned("Evidence end_anchor must be a non-empty string")));
    }
    if has_char(start.as_str(), '\n') || has_char(end.as_str(), '\n') {
        return Err(GraphError::msg(owned("Evidence anchors must each fit on one source line")));
    }
    if evidence.start_occurrence == Some(0usize) || evidence.end_occurrence == Some(0usize) {
        return Err(GraphError::msg(owned("evidence occurrences must be positive integers")));
    }
    Ok(
        EvidenceSelector {
            start_anchor: start.clone(),
            end_anchor: end.clone(),
            start_occurrence: evidence.start_occurrence,
            end_occurrence: evidence.end_occurrence,
        },
    )
}

/// JSON escape of one character, as `serde_json` writes it.
pub open spec fn json_escape(c: char) -> Seq<char> {
    if c == '"' {
        seq!['\\', '"']
    } else if c == '\\' {
        seq!['\\', '\\']
    } else if c == '\u{8}' {
        seq!['\\', 'b']
    } else if c == '\u{c}' {
        seq!['\\', 'f']
    } else if c == '\n' {
        seq!['\\', 'n']
    } else if c == '\r' {
        seq!['\\', 'r']
    } else if c == '\t' {
        seq!['\\', 't']
    } else if (c as u32) < 0x20 {
        seq!['\\', 'u', '0', '0', crate::hash::hex_digit((c as u32 / 16) as nat), crate::hash::hex_digit((c as u32 % 16) as nat)]
    } else {
        seq![c]
    }
}

/// The escaped contents of a JSON string literal.
pub open spec fn json_body(s: Seq<char>) -> Seq<char>
    decreases s.len(),
{
    if s.len() == 0 {
        seq![]
    } else {
        json_body(s.drop_last()) + json_escape(s.last())
    }
}

/// A string as a JSON string literal.
pub open spec fn json_string(s: Seq<char>) -> Seq<char> {
    seq!['"'] + json_body(s) + seq!['"']
}

/// An optional count as JSON: `null` or its numeral.
pub open spec fn json_count(n: Option<usize>) -> Seq<char> {
    match n {
        None => "null"@,
        Some(v) => decimal(v as nat),
    }
}

fn push_json_escape(out: &mut String, c: char)
    ensures
        final(out)@ == old(out)@ + json_escape(c),
{
    if c == '"' {
        push_char(out, '\\');
        push_char(out, '"');
    } else if c == '\\' {
        push_char(out, '\\');
        push_char(out, '\\');
    } else if c == '\u{8}' {
        push_char(out, '\\');
        push_char(out, 'b');
    } else if c == '\u{c}' {
        push_char(out, '\\');
        push_char(out, 'f');
    } else if c == '\n' {
        push_char(out, '\\');
        push_char(out, 'n');
    } else if c == '\r' {
        push_char(out, '\\');
        push_char(out, 'r');
    } else if c == '\t' {
        push_char(out, '\\');
        push_char(out, 't');
    } else if (c as u32) < 0x20 {
        let v = c as u32 as u8;
        push_char(out, '\\');
        push_char(out, 'u');
        push_char(out, '0');
        push_char(out, '0');
        let hi = if v / 16 < 10 { (v / 16 + 48) as char } else { (v / 16 + 87) as char };
        let lo = if v % 16 < 10 { (v % 16 + 48) as char } else { (v % 16 + 87) as char };
        assert(hi == crate::hash::hex_digit((c as u32 / 16) as nat));
        assert(lo == crate::hash::hex_digit((c as u32 % 16) as nat));
        push_char(out, hi);
        push_char(out, lo);
    } else {
        push_char(out, c);
    }
}

/// A string as a JSON string literal.
pub fn json_quote(s: &str) -> (out: String)
    ensures
        out@ == json_string(s@),
{
    let v = chars_of(s);
    let mut out = String::new();
    push_char(&mut out, '"');
    let mut i: usize = 0;
    while i < v.len()
        invariant
            v@ == s@,
            i <= v.len(),
            out@ == seq!['"'] + json_body(s@.take(i as int)),
        decreases v.len() - i,
    {
        push_json_escape(&mut out, v[i]);
        assert(s@.take(i + 1).drop_last() =~= s@.take(i as int));
        i = i + 1;
    }
    assert(s@.take(v.len() as int) =~= s@);
    push_char(&mut out, '"');
    out
}

pub(crate) fn push_json_count(out: &mut String, n: Option<usize>)
    ensures
        final(out)@ == old(out)@ + json_count(n),
{
    match n {
        None => push_str(out, "null"),
        Some(v) => {
            let d = decimal_string(v);
            push_str(out, d.as_str());
        },
    }
}

/// The selector as compact JSON with sorted keys: the text the evidence key
/// digests.
pub open spec fn selector_json(sel: SelectorView) -> Seq<char> {
    "{\"end_anchor\":"@ + json_string(sel.end_anchor) + ",\"end_occurrence\":"@ + json_count(
        sel.end_occurrence,
    ) + ",\"start_anchor\":"@ + json_string(sel.start_anchor) + ",\"start_occurrence\":"@
        + json_count(sel.start_occurrence) + "}"@
}

/// The evidence key: the source path with `/` separators, `#anchor-`, and the
/// first twenty hex digits of the SHA-256 digest of the selector's JSON.
pub open spec fn key_spec(path: Seq<char>, sel: SelectorView) -> Seq<char> {
    replace_char(path, '\\', '/') + "#anchor-"@ + hex_lower(sha256(encode_utf8(selector_json(sel)))).take(20)
}

/// The selector as compact JSON with sorted keys.
pub fn selector_json_text(selector: &EvidenceSelector) -> (out: String)
    ensures
        out@ == selector_json(selector@),
{
    let mut out = String::new();
    push_str(&mut out, "{\"end_anchor\":");
    let end = json_quote(selector.end_anchor.as_str());
    push_str(&mut out, end.as_str());
    push_str(&mut out, ",\"end_occurrence\":");
    push_json_count(&mut out, selector.end_occurrence);
    push_str(&mut out, ",\"start_anchor\":");
    let start = json_quote(selector.start_anchor.as_str());
    push_str(&mut out, start.as_str());
    push_str(&mut out, ",\"start_occurrence\":");
    push_json_count(&mut out, selector.start_occurrence);
    push_str(&mut out, "}");
    out
}

/// The first `n` characters of a string.
fn take_chars(s: &str, n: usize) -> (out: String)
    requires
        n <= s@.len(),
    ensures
        out@ == s@.take(n as int),
{
    let v = chars_of(s);
    let mut out = String::new();
    let mut i: usize = 0;
    while i < n
        invariant
            v@ == s@,
            n <= v@.len(),
            i <= n,
            out@ == s@.take(i as int),
        decreases n - i,
    {
        push_char(&mut out, v[i]);
        assert(s@.take(i + 1) =~= s@.take(i as int).push(s@[i as int]));
        i = i + 1;
    }
    out
}

/// The key that identifies an evidence span in the lock.
pub fn evidence_key(path: &str, selector: &EvidenceSelector) -> (out: String)
    ensures
        out@ == key_spec(path@, selector@),
{
    let json = selector_json_text(selector);
    let digest = sha256_hex(json.as_str().as_bytes());
    let mut out = replace_char_str(path, '\\', '/');
    push_str(&mut out, "#anchor-");
    let short = take_chars(digest.as_str(), 20);
    push_str(&mut out, short.as_str());
    out
}

/// `s` without one trailing carriage return.
pub open spec fn strip_cr(s: Seq<char>) -> Seq<char> {
    if s.len() > 0 && s.last() == '\r' {
        s.drop_last()
    } else {
        s
    }
}

/// The lines of the text after the partial line `cur`.
pub open spec fn lines_from(s: Seq<char>, cur: Seq<char>) -> Seq<Seq<char>>
    decreases s.len(),
{
    if s.len() == 0 {
        if cur.len() == 0 {
            seq![]
        } else {
            seq![cur]
        }
    } else if s[0] == '\n' {
        seq![strip_cr(cur)] + lines_from(s.drop_first(), seq![])
    } else {
        lines_from(s.drop_first(), cur.push(s[0]))
    }
}

/// The lines of a text as `str::lines` splits it: at each `\n`, dropping a
/// `\r` before it; a last line without `\n` is kept whole, and a final `\n`
/// starts no empty line.
pub open spec fn lines_of(s: Seq<char>) -> Seq<Seq<char>> {
    lines_from(s, seq![])
}

/// The lines of a text.
pub fn split_lines(text: &str) -> (out: Vec<String>)
    ensures
        views(out@) == lines_of(text@),
{
    let v = chars_of(text);
    let mut out: Vec<String> = Vec::new();
    let mut cur: Vec<char> = Vec::new();
    let mut i: usize = 0;
    assert(text@.skip(0) =~= text@);
    assert(cur@ =~= Seq::<char>::empty());
    assert(views(out@) + lines_of(text@) =~= lines_of(text@));
    while i < v.len()
        invariant
            v@ == text@,
            i <= v.len(),
            lines_of(text@) == views(out@) + lines_from(text@.skip(i as int), cur@),
        decreases v.len() - i,
    {
        let ghost rest = text@.skip(i as int);
        assert(rest.drop_first() =~= text@.skip(i + 1));
        if v[i] == '\n' {
            let mut line_chars = cur;
            if line_chars.len() > 0 && line_chars[line_chars.len() - 1] == '\r' {
                line_chars.pop();
            }
            let ghost before = out@;
            let line = crate::text::string_from_chars(line_chars.as_slice());
            assert(line@ == strip_cr(cur@)) by {
                if cur@.len() > 0 && cur@.last() == '\r' {
                    assert(line_chars@ =~= cur@.drop_last());
                }
            }
            out.push(line);
            assert(views(out@) =~= views(before).push(strip_cr(cur@)));
            assert(views(out@) + lines_from(rest.drop_first(), seq![]) =~= views(before) + (seq![strip_cr(cur@)] + lines_from(rest.drop_first(), seq![])));
            cur = Vec::new();
            assert(cur@ =~= Seq::<char>::empty());
        } else {
            cur.push(v[i]);
        }
        i = i + 1;
    }
    assert(text@.skip(v.len() as int) =~= Seq::<char>::empty());
    if cur.len() > 0 {
        let ghost before = out@;
        let line = crate::text::string_from_chars(cur.as_slice());
        out.push(line);
        assert(views(out@) =~= views(before).push(cur@));
        assert(views(before) + seq![cur@] =~= views(out@));
    } else {
        assert(views(out@) + Seq::<Seq<char>>::empty() =~= views(out@));
    }
    out
}

/// The positions in `[start_at, j)` of the lines that contain `anchor`, in
/// increasing order.
pub open spec fn matches_upto(lines: Seq<Seq<char>>, anchor: Seq<char>, start_at: int, j: int) -> Seq<int>
    decreases j,
{
    if j <= start_at || j <= 0 {
        seq![]
    } else {
        let prev = matches_upto(lines, anchor, start_at, j - 1);
        if has_substr(lines[j - 1], anchor) {
            prev.push(j - 1)
        } else {
            prev
        }
    }
}

/// The positions, from `start_at` on, of the lines that contain `anchor`.
pub open spec fn anchor_matches(lines: Seq<Seq<char>>, anchor: Seq<char>, start_at: int) -> Seq<int> {
    matches_upto(lines, anchor, start_at, lines.len() as int)
}

/// Message for an anchor that no line contains.
pub open spec fn not_found_message(anchor: Seq<char>) -> Seq<char> {
    "Anchor "@ + debug_str(anchor) + " was not found"@
}

/// Message for an anchor that several lines contain.
pub open spec fn ambiguous_message(anchor: Seq<char>, found: nat) -> Seq<char> {
    "Anchor "@ + debug_str(anchor) + " is ambiguous (found "@ + decimal(found)
        + "); set an explicit occurrence"@
}

/// Message for an occurrence beyond the last match.
pub open spec fn occurrence_message(anchor: Seq<char>, n: nat, found: nat) -> Seq<char> {
    "Anchor "@ + debug_str(anchor) + " occurrence "@ + decimal(n) + " was not found (found "@
        + decimal(found) + ")"@
}

/// The line an anchor selects: its only match, or its `n`-th match.
pub open spec fn occurrence_spec(
    lines: Seq<Seq<char>>,
    anchor: Seq<char>,
    occurrence: Option<usize>,
    start_at: int,
) -> Result<int, Seq<char>> {
    let m = anchor_matches(lines, anchor, start_at);
    match occurrence {
        None => if m.len() == 0 {
            Err(not_found_message(anchor))
        } else if m.len() != 1 {
            Err(ambiguous_message(anchor, m.len()))
        } else {
            Ok(m[0])
        },
        Some(n) => if m.len() < n {
            Err(occurrence_message(anchor, n as nat, m.len()))
        } else {
            Ok(m[n - 1])
        },
    }
}

/// Every match lies in `[start_at, j)`, contains the anchor, and they increase.
pub proof fn lemma_matches_bounds(lines: Seq<Seq<char>>, anchor: Seq<char>, start_at: int, j: int)
    requires
        j <= lines.len(),
    ensures
        forall|k: int|
            0 <= k < matches_upto(lines, anchor, start_at, j).len() ==> {
                let p = #[trigger] matches_upto(lines, anchor, start_at, j)[k];
                &&& start_at <= p < j
                &&& 0 <= p
                &&& has_substr(lines[p], anchor)
            },
        forall|a: int, b: int|
            0 <= a < b < matches_upto(lines, anchor, start_at, j).len() ==> matches_upto(
                lines,
                anchor,
                start_at,
                j,
            )[a] < matches_upto(lines, anchor, start_at, j)[b],
    decreases j,
{
    if !(j <= start_at || j <= 0) {
        lemma_matches_bounds(lines, anchor, start_at, j - 1);
        let prev = matches_upto(lines, anchor, start_at, j - 1);
        let cur = matches_upto(lines, anchor, start_at, j);
        assert forall|k: int| 0 <= k < cur.len() implies {
            let p = #[trigger] cur[k];
            &&& start_at <= p < j
            &&& 0 <= p
            &&& has_substr(lines[p], anchor)
        } by {
            if k < prev.len() {
                assert(cur[k] == prev[k]);
            }
        }
        assert forall|a: int, b: int| 0 <= a < b < cur.len() implies cur[a] < cur[b] by {
            if b < prev.len() {
                assert(cur[a] == prev[a] && cur[b] == prev[b]);
            } else {
                assert(cur[a] == prev[a]);
                assert(start_at <= prev[a] < j - 1);
            }
        }
    }
}

/// The position of the line an anchor selects, searching from `start_at`.
pub fn select_occurrence(
    lines: &Vec<String>,
    anchor: &str,
    occurrence: Option<usize>,
    start_at: usize,
) -> (out: Result<usize, GraphError>)
    requires
        occurrence != Some(0usize),
    ensures
        match (out, occurrence_spec(views(lines@), anchor@, occurrence, start_at as int)) {
            (Ok(i), Ok(j)) => i == j,
            (Err(e), Err(m)) => e.text() == m,
            _ => false,
        },
{
    let ghost ls = views(lines@);
    let mut found: Vec<usize> = Vec::new();
    let mut i: usize = start_at;
    if i > lines.len() {
        i = lines.len();
    }
    assert(found@.map_values(|x: usize| x as int) =~= matches_upto(ls, anchor@, start_at as int, i as int));
    while i < lines.len()
        invariant
            ls == views(lines@),
            start_at <= i || i == lines@.len(),
            i <= lines.len(),
            found@.map_values(|x: usize| x as int) == matches_upto(ls, anchor@, start_at as int, i as int),
        decreases lines.len() - i,
    {
        let hit = str_contains(lines[i].as_str(), anchor);
        let ghost before = found@;
        if hit {
            found.push(i);
            assert(found@.map_values(|x: usize| x as int) =~= before.map_values(|x: usize| x as int).push(i as int));
        }
        i = i + 1;
    }
    let n = found.len();
    match occurrence {
        None => {
            if n == 0 {
                let mut m = owned("Anchor ");
                let q = debug_quote(anchor);
                push_str(&mut m, q.as_str());
                push_str(&mut m, " was not found");
                Err(GraphError::msg(m))
            } else if n != 1 {
                let mut m = owned("Anchor ");
                let q = debug_quote(anchor);
                push_str(&mut m, q.as_str());
                push_str(&mut m, " is ambiguous (found ");
                let d = decimal_string(n);
                push_str(&mut m, d.as_str());
                push_str(&mut m, "); set an explicit occurrence");
                Err(GraphError::msg(m))
            } else {
                assert(found@.map_values(|x: usize| x as int)[0] == found@[0] as int);
                Ok(found[0])
            }
        },
        Some(k) => {
            if n < k {
                let mut m = owned("Anchor ");
                let q = debug_quote(anchor);
                push_str(&mut m, q.as_str());
                push_str(&mut m, " occurrence ");
                let d = decimal_string(k);
                push_str(&mut m, d.as_str());
                push_str(&mut m, " was not found (found ");
                let d2 = decimal_string(n);
                push_str(&mut m, d2.as_str());
                push_str(&mut m, ")");
                Err(GraphError::msg(m))
            } else {
                assert(found@.map_values(|x: usize| x as int)[k - 1] == found@[k - 1] as int);
                Ok(found[k - 1])
            }
        },
    }
}

/// The bytes and lines of an evidence source file.
#[derive(Debug, Clone)]
pub struct SourceText {
    pub raw: Vec<u8>,
    pub lines: Vec<String>,
}

/// `String::from_utf8`: decodes UTF-8, failing on an invalid encoding.
#[verifier::external_body]
pub(crate) fn utf8_text(bytes: &[u8]) -> (out: Option<String>)
    ensures
        out is Some == valid_utf8(bytes@),
        out matches Some(s) ==> s@ == decode_utf8(bytes@),
{
    String::from_utf8(bytes.to_vec()).ok()
}

/// A source file read as UTF-8 text and split into lines.
pub fn source_text(raw: Vec<u8>, path: &str) -> (out: Result<SourceText, GraphError>)
    ensures
        match out {
            Ok(t) => valid_utf8(raw@) && t.raw@ == raw@ && views(t.lines@) == lines_of(
                decode_utf8(raw@),
            ),
            Err(e) => !valid_utf8(raw@) && e.text() == "Evidence source is not UTF-8 text: "@
                + path@,
        },
{
    match utf8_text(raw.as_slice()) {
        None => {
            let mut m = owned("Evidence source is not UTF-8 text: ");
            push_str(&mut m, path);
            Err(GraphError::msg(m))
        },
        Some(text) => {
            let lines = split_lines(text.as_str());
            Ok(SourceText { raw, lines })
        },
    }
}

/// Sources by normalized path: the text, or why it could not be read.
pub type SourceTable = Vec<(String, Result<SourceText, GraphError>)>;

/// The first entry of the table for `path`, or the table's length.
pub open spec fn first_entry(table: Seq<(String, Result<SourceText, GraphError>)>, path: Seq<char>, from: int) -> int
    decreases table.len() - from,
{
    if from >= table.len() || from < 0 {
        table.len() as int
    } else if table[from].0@ == path {
        from
    } else {
        first_entry(table, path, from + 1)
    }
}

/// Message when no source was loaded for a path.
pub open spec fn missing_source_message() -> Seq<char> {
    "evidence source cache entry was not created"@
}

/// The span a selector picks out of a source's lines.
pub open spec fn span_spec(path: Seq<char>, sel: SelectorView, raw: Seq<u8>, lines: Seq<Seq<char>>) -> Result<SnapshotView, Seq<char>> {
    match occurrence_spec(lines, sel.start_anchor, sel.start_occurrence, 0) {
        Err(m) => Err(m),
        Ok(start) => {
            let end_r = if sel.end_anchor == sel.start_anchor && (sel.end_occurrence is None
                || sel.end_occurrence == Some(1usize)) {
                Ok(start)
            } else {
                occurrence_spec(lines, sel.end_anchor, sel.end_occurrence, start)
            };
            match end_r {
                Err(m) => Err(m),
                Ok(end) => {
                    let quote = join(lines.subrange(start, end + 1), "\n"@);
                    Ok(
                        SnapshotView {
                            key: key_spec(path, sel),
                            path,
                            selector: sel,
                            line_start: start + 1,
                            line_end: end + 1,
                            file_sha256: hex_lower(sha256(raw)),
                            span_sha256: hex_lower(sha256(encode_utf8(quote))),
                            quote,
                        },
                    )
                },
            }
        },
    }
}

/// What resolving an evidence entry against the loaded sources gives: its
/// snapshot, or the message of the first check that failed.
pub open spec fn snapshot_spec(table: Seq<(String, Result<SourceText, GraphError>)>, e: Evidence) -> Result<SnapshotView, Seq<char>> {
    match selector_spec(e) {
        Err(m) => Err(m),
        Ok(sel) => {
            let path = replace_char(e.path@, '\\', '/');
            let idx = first_entry(table, path, 0);
            if idx >= table.len() {
                Err(missing_source_message())
            } else {
                match table[idx].1 {
                    Err(err) => Err(err.text()),
                    Ok(src) => span_spec(path, sel, src.raw@, views(src.lines@)),
                }
            }
        },
    }
}

/// An end anchor that repeats the start anchor (or is left out) and asks for
/// no later occurrence closes the span on the start line itself: whenever the
/// source is loaded and the start anchor selects line `k`, the snapshot
/// succeeds and quotes exactly line `k`, however often the anchor occurs
/// further down.
pub proof fn law_repeated_anchor_spans_the_start_line(
    table: Seq<(String, Result<SourceText, GraphError>)>,
    e: Evidence,
    sel: SelectorView,
    src: SourceText,
    k: int,
)
    requires
        selector_spec(e) == Ok::<SelectorView, Seq<char>>(sel),
        sel.end_anchor == sel.start_anchor,
        sel.end_occurrence is None || sel.end_occurrence == Some(1usize),
        first_entry(table, replace_char(e.path@, '\\', '/'), 0) < table.len(),
        table[first_entry(table, replace_char(e.path@, '\\', '/'), 0)].1 == Ok::<SourceText, GraphError>(src),
        occurrence_spec(views(src.lines@), sel.start_anchor, sel.start_occurrence, 0) == Ok::<int, Seq<char>>(k),
    ensures
        snapshot_spec(table, e) is Ok,
        snapshot_spec(table, e)->Ok_0.line_start == k + 1,
        snapshot_spec(table, e)->Ok_0.line_end == k + 1,
        snapshot_spec(table, e)->Ok_0.quote == views(src.lines@)[k],
{
    let lines = views(src.lines@);
    lemma_matches_bounds(lines, sel.start_anchor, 0, lines.len() as int);
    let m = anchor_matches(lines, sel.start_anchor, 0);
    match sel.start_occurrence {
        None => { assert(m[0] == k); },
        Some(n) => { assert(m[n - 1] == k); },
    }
    assert(lines.subrange(k, k + 1) =~= seq![lines[k]]);
}

/// The lines `start..=end`, joined by newlines.
fn quote_lines(lines: &Vec<String>, start: usize, end: usize) -> (out: String)
    requires
        start <= end < lines@.len(),
    ensures
        out@ == join(views(lines@).subrange(start as int, end + 1), "\n"@),
{
    let mut part: Vec<String> = Vec::new();
    let mut i: usize = start;
    let n = lines.len();
    let stop = end + 1;
    while i < stop
        invariant
            stop == end + 1,
            start <= i <= end + 1,
            end < lines@.len(),
            part@ == lines@.subrange(start as int, i as int),
        decreases stop - i,
    {
        part.push(lines[i].clone());
        assert(lines@.subrange(start as int, i + 1) =~= lines@.subrange(start as int, i as int).push(lines@[i as int]));
        i = i + 1;
    }
    assert(views(part@) =~= views(lines@).subrange(start as int, end + 1));
    crate::text::join_strings(&part, "\n")
}

/// Finds the table entry for `path`.
fn find_source(table: &SourceTable, path: &str) -> (out: Option<usize>)
    ensures
        match out {
            Some(i) => i < table@.len() && i == first_entry(table@, path@, 0),
            None => first_entry(table@, path@, 0) >= table@.len(),
        },
{
    let mut i: usize = 0;
    while i < table.len()
        invariant
            i <= table@.len(),
            first_entry(table@, path@, 0) == first_entry(table@, path@, i as int),
        decreases table.len() - i,
    {
        if str_eq(table[i].0.as_str(), path) {
            return Some(i);
        }
        i = i + 1;
    }
    None
}

/// Resolves the span an evidence entry names in the loaded sources.
pub fn snapshot_evidence(sources: &SourceTable, evidence: &Evidence) -> (out: Result<EvidenceSnapshot, GraphError>)
    ensures
        match (out, snapshot_spec(sources@, *evidence)) {
            (Ok(s), Ok(v)) => s@ == v,
            (Err(e), Err(m)) => e.text() == m,
            _ => false,
        },
{
    let selector = evidence_selector(evidence)?;
    let path = replace_char_str(evidence.path.as_str(), '\\', '/');
    let idx = match find_source(sources, path.as_str()) {
        None => {
            return Err(GraphError::msg(owned("evidence source cache entry was not created")));
        },
        Some(i) => i,
    };
    let source = match &sources[idx].1 {
        Err(e) => {
            return Err(e.clone());
        },
        Ok(src) => src,
    };
    let ghost ls = views(source.lines@);
    let start = select_occurrence(&source.lines, selector.start_anchor.as_str(), selector.start_occurrence, 0)?;
    proof {
        lemma_matches_bounds(ls, selector.start_anchor@, 0, ls.len() as int);
        let m = anchor_matches(ls, selector.start_anchor@, 0);
        match selector.start_occurrence {
            None => { assert(m[0] == start as int); },
            Some(n) => { assert(m[n - 1] == start as int); },
        }
    }
    let same_anchor = str_eq(selector.end_anchor.as_str(), selector.start_anchor.as_str());
    let end = if same_anchor && (selector.end_occurrence.is_none() || selector.end_occurrence == Some(1usize)) {
        start
    } else {
        let e = select_occurrence(&source.lines, selector.end_anchor.as_str(), selector.end_occurrence, start)?;
        proof {
            lemma_matches_bounds(ls, selector.end_anchor@, start as int, ls.len() as int);
            let m = anchor_matches(ls, selector.end_anchor@, start as int);
            match selector.end_occurrence {
                None => { assert(m[0] == e as int); },
                Some(n) => { assert(m[n - 1] == e as int); },
            }
        }
        e
    };
    let nlines = source.lines.len();
    assert(end < nlines);
    let quote = quote_lines(&source.lines, start, end);
    let key = evidence_key(path.as_str(), &selector);
    proof {
        assert(replace_char(replace_char(evidence.path@, '\\', '/'), '\\', '/') =~= replace_char(evidence.path@, '\\', '/'));
    }
    let file_sha256 = sha256_hex(source.raw.as_slice());
    let span_sha256 = sha256_hex(quote.as_str().as_bytes());
    Ok(
        EvidenceSnapshot {
            key,
            path,
            selector,
            line_start: start + 1,
            line_end: end + 1,
            file_sha256,
            span_sha256,
            quote,
        },
    )
}

} // verus!
