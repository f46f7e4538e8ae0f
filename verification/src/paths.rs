//! Paths of evidence sources: component-wise prefixes, the project-relative
//! form of a path, and the policy that keeps evidence inside the project and
//! away from blocked files.
//!
//! Paths follow Unix conventions: `/` separates components, a leading `/` is
//! the root, and empty and `.` components are skipped.

use vstd::prelude::*;
use globset::{Glob, GlobBuilder, GlobSet, GlobSetBuilder};
use crate::error::GraphError;
use crate::text::{chars_of, debug_quote, debug_str, owned, push_str, replace_char, replace_char_str, string_from_chars, views};

verus! {

/// A component of a path: its text (`/` for the root, `.` for a leading
/// current directory) and the span `[start, end)` it occupies.
pub type Comp = (Seq<char>, int, int);

/// The component of the segment `[a, b)`: none when the segment is empty or `.`.
pub open spec fn segment_comp(s: Seq<char>, a: int, b: int) -> Seq<Comp> {
    let t = s.subrange(a, b);
    if t.len() == 0 || t == seq!['.'] {
        seq![]
    } else {
        seq![(t, a, b)]
    }
}

/// The components of `s` from position `i` on, in a segment that began at `start`.
pub open spec fn segment_comps(s: Seq<char>, i: int, start: int) -> Seq<Comp>
    decreases s.len() - i,
{
    if i >= s.len() {
        segment_comp(s, start, s.len() as int)
    } else if s[i] == '/' {
        segment_comp(s, start, i) + segment_comps(s, i + 1, i + 1)
    } else {
        segment_comps(s, i + 1, start)
    }
}

/// The components of a path (`Path::components` on Unix).
pub open spec fn path_comps(s: Seq<char>) -> Seq<Comp> {
    if s.len() > 0 && s[0] == '/' {
        seq![(seq!['/'], 0, 1)] + segment_comps(s, 1, 1)
    } else if s.len() > 0 && s[0] == '.' && (s.len() == 1 || s[1] == '/') {
        seq![(seq!['.'], 0, 1)] + segment_comps(s, 1, 1)
    } else {
        segment_comps(s, 0, 0)
    }
}

/// The texts of components.
pub open spec fn comp_texts(c: Seq<Comp>) -> Seq<Seq<char>> {
    c.map_values(|x: Comp| x.0)
}

/// `path` with the components of `base` removed from its front
/// (`Path::strip_prefix`): the rest of the path from its next component to its
/// last one, or `None` when `base`'s components are not a prefix of `path`'s.
pub open spec fn strip_prefix_spec(base: Seq<char>, path: Seq<char>) -> Option<Seq<char>> {
    let b = comp_texts(path_comps(base));
    let p = path_comps(path);
    if b.len() <= p.len() && comp_texts(p).take(b.len() as int) == b {
        if b.len() == p.len() {
            Some(seq![])
        } else {
            Some(path.subrange(p[b.len() as int].1, p.last().2))
        }
    } else {
        None
    }
}

/// A component of the span `[start, i)` of `s`.
fn push_segment(s: &Vec<char>, start: usize, i: usize, out: &mut Vec<(String, usize, usize)>)
    requires
        start <= i <= s@.len(),
    ensures
        final(out)@.len() <= old(out)@.len() + 1,
        final(out)@.len() >= old(out)@.len(),
        forall|k: int| 0 <= k < old(out)@.len() ==> final(out)@[k] == old(out)@[k],
        forall|k: int| old(out)@.len() <= k < final(out)@.len() ==> (#[trigger] final(out)@[k]).1 == start && final(out)@[k].2 == i,
        comps_view(final(out)@) == comps_view(old(out)@) + segment_comp(s@, start as int, i as int),
{
    let mut t: Vec<char> = Vec::new();
    let mut k: usize = start;
    while k < i
        invariant
            start <= k <= i <= s@.len(),
            t@ == s@.subrange(start as int, k as int),
        decreases i - k,
    {
        t.push(s[k]);
        assert(s@.subrange(start as int, k + 1) =~= s@.subrange(start as int, k as int).push(s@[k as int]));
        k = k + 1;
    }
    let ghost before = out@;
    if t.len() == 0 || (t.len() == 1 && t[0] == '.') {
        assert(comps_view(out@) =~= comps_view(before) + segment_comp(s@, start as int, i as int)) by {
            if t.len() == 1 {
                assert(t@ =~= seq!['.']);
            }
        }
    } else {
        let text = string_from_chars(t.as_slice());
        out.push((text, start, i));
        assert(t@ != seq!['.']) by {
            if t@.len() == 1 {
                assert(t@[0] != '.');
            }
        }
        assert(comps_view(out@) =~= comps_view(before) + segment_comp(s@, start as int, i as int));
    }
}

/// The view of computed components.
pub open spec fn comps_view(v: Seq<(String, usize, usize)>) -> Seq<Comp> {
    v.map_values(|x: (String, usize, usize)| (x.0@, x.1 as int, x.2 as int))
}

/// The components of a path.
fn components(path: &str) -> (out: Vec<(String, usize, usize)>)
    ensures
        comps_view(out@) == path_comps(path@),
        forall|k: int| 0 <= k < out@.len() ==> (#[trigger] out@[k]).1 <= out@[k].2 <= path@.len(),
        forall|k: int, l: int| 0 <= k < l < out@.len() ==> (#[trigger] out@[k]).2 <= (#[trigger] out@[l]).1,
{
    let s = chars_of(path);
    let mut out: Vec<(String, usize, usize)> = Vec::new();
    let mut i: usize;
    let ghost lead: Seq<Comp>;
    if s.len() > 0 && s[0] == '/' {
        out.push((owned("/"), 0, 1));
        i = 1;
        proof {
            lead = seq![(seq!['/'], 0int, 1int)];
            reveal_strlit("/");
            assert("/"@ =~= seq!['/']);
        }
    } else if s.len() > 0 && s[0] == '.' && (s.len() == 1 || s[1] == '/') {
        out.push((owned("."), 0, 1));
        i = 1;
        proof {
            lead = seq![(seq!['.'], 0int, 1int)];
            reveal_strlit(".");
            assert("."@ =~= seq!['.']);
        }
    } else {
        i = 0;
        proof {
            lead = seq![];
        }
    }
    assert(comps_view(out@) =~= lead);
    let mut start: usize = i;
    let ghost i0 = i as int;
    assert(path_comps(path@) == lead + segment_comps(path@, i0, i0));
    while i < s.len()
        invariant
            s@ == path@,
            start <= i <= s@.len(),
            0 <= i0 <= 1,
            i0 <= start,
            forall|k: int| 0 <= k < out@.len() ==> (#[trigger] out@[k]).1 <= out@[k].2 <= path@.len(),
            forall|k: int| 0 <= k < out@.len() ==> (#[trigger] out@[k]).2 <= start,
            forall|k: int, l: int| 0 <= k < l < out@.len() ==> (#[trigger] out@[k]).2 <= (#[trigger] out@[l]).1,
            path_comps(path@) == comps_view(out@) + segment_comps(path@, i as int, start as int),
        decreases s.len() - i,
    {
        if s[i] == '/' {
            let ghost before = comps_view(out@);
            push_segment(&s, start, i, &mut out);
            assert(path_comps(path@) =~= comps_view(out@) + segment_comps(path@, i + 1, i + 1));
            start = i + 1;
        }
        i = i + 1;
    }
    push_segment(&s, start, i, &mut out);
    assert(path_comps(path@) =~= comps_view(out@));
    out
}

/// `path` with the components of `base` removed from its front.
fn strip_prefix(base: &str, path: &str) -> (out: Option<String>)
    ensures
        match out {
            Some(r) => strip_prefix_spec(base@, path@) == Some(r@),
            None => strip_prefix_spec(base@, path@) is None,
        },
{
    let b = components(base);
    let p = components(path);
    let ghost bt = comp_texts(path_comps(base@));
    let ghost pc = path_comps(path@);
    assert(bt.len() == b@.len());
    assert(pc.len() == p@.len());
    if b.len() > p.len() {
        return None;
    }
    let mut k: usize = 0;
    while k < b.len()
        invariant
            k <= b@.len() <= p@.len(),
            bt == comp_texts(comps_view(b@)),
            pc == comps_view(p@),
            bt == comp_texts(path_comps(base@)),
            pc == path_comps(path@),
            forall|j: int| 0 <= j < k ==> (#[trigger] bt[j]) == comp_texts(pc)[j],
        decreases b.len() - k,
    {
        let same = crate::text::str_eq(b[k].0.as_str(), p[k].0.as_str());
        if !same {
            assert(bt[k as int] == b@[k as int].0@);
            assert(comp_texts(pc)[k as int] == p@[k as int].0@);
            assert(comp_texts(pc).take(bt.len() as int)[k as int] != bt[k as int]);
            assert(comp_texts(pc).take(bt.len() as int) != bt);
            return None;
        }
        k = k + 1;
    }
    assert(comp_texts(pc).take(bt.len() as int) =~= bt);
    if b.len() == p.len() {
        return Some(String::new());
    }
    let from = p[b.len()].1;
    let to = p[p.len() - 1].2;
    let s = chars_of(path);
    let mut out: Vec<char> = Vec::new();
    let mut i: usize = from;
    while i < to
        invariant
            s@ == path@,
            from <= i <= to <= s@.len(),
            out@ == path@.subrange(from as int, i as int),
        decreases to - i,
    {
        out.push(s[i]);
        assert(path@.subrange(from as int, i + 1) =~= path@.subrange(from as int, i as int).push(path@[i as int]));
        i = i + 1;
    }
    Some(string_from_chars(out.as_slice()))
}

/// `path` relative to `root`, with `/` separators, or the message when `path`
/// is not inside `root`.
pub open spec fn relative_slash_spec(root: Seq<char>, path: Seq<char>) -> Result<Seq<char>, Seq<char>> {
    match strip_prefix_spec(root, path) {
        None => Err(path + " escapes project root"@),
        Some(rest) => Ok(replace_char(rest, '\\', '/')),
    }
}

/// `path` relative to `root`, with `/` separators.
pub fn relative_slash(root: &str, path: &str) -> (out: Result<String, GraphError>)
    ensures
        match (out, relative_slash_spec(root@, path@)) {
            (Ok(r), Ok(v)) => r@ == v,
            (Err(e), Err(m)) => e.text() == m,
            _ => false,
        },
{
    match strip_prefix(root, path) {
        None => {
            let mut m = owned(path);
            push_str(&mut m, " escapes project root");
            Err(GraphError::msg(m))
        },
        Some(rest) => Ok(replace_char_str(rest.as_str(), '\\', '/')),
    }
}

/// `s` without its leading `/` characters.
pub open spec fn trim_leading_slashes(s: Seq<char>) -> Seq<char>
    decreases s.len(),
{
    if s.len() > 0 && s[0] == '/' {
        trim_leading_slashes(s.drop_first())
    } else {
        s
    }
}

/// An evidence path as the policy sees it: `\` turned into `/`, leading `/`
/// removed.
pub open spec fn normalize_relative(relative: Seq<char>) -> Seq<char> {
    trim_leading_slashes(replace_char(relative, '\\', '/'))
}

/// A relative path that could leave the project: empty, absolute, or with a
/// `..` component.
pub open spec fn unsafe_relative(n: Seq<char>) -> bool {
    n.len() == 0 || (n[0] == '/') || exists|k: int|
        0 <= k < path_comps(n).len() && ((#[trigger] path_comps(n)[k]).0 == seq!['.', '.']
            || path_comps(n)[k].0 == seq!['/'])
}

/// `s` without its leading `/` characters.
fn trim_slashes(s: &str) -> (out: String)
    ensures
        out@ == trim_leading_slashes(s@),
{
    let v = chars_of(s);
    let mut i: usize = 0;
    assert(s@.subrange(0, s@.len() as int) =~= s@);
    while i < v.len() && v[i] == '/'
        invariant
            v@ == s@,
            i <= v.len(),
            trim_leading_slashes(s@) == trim_leading_slashes(s@.subrange(i as int, s@.len() as int)),
        decreases v.len() - i,
    {
        assert(s@.subrange(i as int, s@.len() as int).drop_first() =~= s@.subrange(i + 1, s@.len() as int));
        i = i + 1;
    }
    let mut out: Vec<char> = Vec::new();
    let mut j: usize = i;
    while j < v.len()
        invariant
            v@ == s@,
            i <= j <= v.len(),
            out@ == s@.subrange(i as int, j as int),
        decreases v.len() - j,
    {
        out.push(v[j]);
        assert(s@.subrange(i as int, j + 1) =~= s@.subrange(i as int, j as int).push(s@[j as int]));
        j = j + 1;
    }
    assert(out@ == s@.subrange(i as int, s@.len() as int));
    string_from_chars(out.as_slice())
}

/// Whether a normalized relative path could leave the project.
fn is_unsafe_relative(n: &str) -> (res: bool)
    ensures
        res == unsafe_relative(n@),
{
    let v = chars_of(n);
    if v.len() == 0 || v[0] == '/' {
        return true;
    }
    let comps = components(n);
    let ghost pc = path_comps(n@);
    let mut k: usize = 0;
    while k < comps.len()
        invariant
            pc == path_comps(n@),
            pc == comps_view(comps@),
            k <= comps@.len(),
            forall|j: int| 0 <= j < k ==> !((#[trigger] pc[j]).0 == seq!['.', '.'] || pc[j].0 == seq!['/']),
        decreases comps.len() - k,
    {
        let t = chars_of(comps[k].0.as_str());
        let parent = t.len() == 2 && t[0] == '.' && t[1] == '.';
        let root = t.len() == 1 && t[0] == '/';
        assert(pc[k as int].0 == t@);
        if parent || root {
            assert(parent ==> t@ =~= seq!['.', '.']);
            assert(root ==> t@ =~= seq!['/']);
            return true;
        }
        assert(t@ != seq!['.', '.']) by {
            if t@.len() == 2 {
                assert(t@[0] != '.' || t@[1] != '.');
            }
        }
        assert(t@ != seq!['/']) by {
            if t@.len() == 1 {
                assert(t@[0] != '/');
            }
        }
        k = k + 1;
    }
    false
}

#[verifier::external_type_specification]
#[verifier::external_body]
pub struct ExGlob(globset::Glob);

#[verifier::external_type_specification]
#[verifier::external_body]
pub struct ExGlobSetBuilder(globset::GlobSetBuilder);

#[verifier::external_type_specification]
#[verifier::external_body]
pub struct ExGlobSet(globset::GlobSet);

/// What `GlobBuilder::new(pattern).case_insensitive(true).build()` gives:
/// `None` when the pattern compiles, else the error's text.
pub uninterp spec fn case_insensitive_glob(pattern: Seq<char>) -> Option<Seq<char>>;

/// The pattern a glob was compiled from (`Glob::glob`). Every glob the
/// library compiles is case-insensitive with the other options at their
/// defaults, so the pattern determines it.
pub uninterp spec fn glob_pattern(g: Glob) -> Seq<char>;

/// The patterns of the globs added to a builder, in order.
pub uninterp spec fn builder_patterns(b: GlobSetBuilder) -> Seq<Seq<char>>;

/// The patterns of the globs a set was built from, in order.
pub uninterp spec fn set_patterns(s: GlobSet) -> Seq<Seq<char>>;

/// What `GlobSetBuilder::build` gives for the case-insensitive globs of these
/// patterns: `None` when the set builds, else the error's text.
pub uninterp spec fn glob_set_error(patterns: Seq<Seq<char>>) -> Option<Seq<char>>;

/// Whether some case-insensitive glob of the patterns matches the path
/// (`GlobSet::is_match`).
pub uninterp spec fn glob_set_match(patterns: Seq<Seq<char>>, path: Seq<char>) -> bool;

/// `GlobBuilder::new(pattern).case_insensitive(true).build()` from `globset`:
/// compiles a case-insensitive glob. Its outcome depends on the pattern alone
/// and is named `case_insensitive_glob`; a compiled glob keeps its pattern.
/// The error is converted to its display text.
#[verifier::external_body]
fn compile_glob(pattern: &str) -> (out: Result<Glob, String>)
    ensures
        match out {
            Ok(g) => case_insensitive_glob(pattern@) is None && glob_pattern(g) == pattern@,
            Err(m) => case_insensitive_glob(pattern@) == Some(m@),
        },
{
    match GlobBuilder::new(pattern).case_insensitive(true).build() {
        Ok(glob) => Ok(glob),
        Err(error) => Err(error.to_string()),
    }
}

/// `GlobSetBuilder::new`: a builder holding no glob.
#[verifier::external_body]
fn new_glob_set_builder() -> (b: GlobSetBuilder)
    ensures
        builder_patterns(b) == Seq::<Seq<char>>::empty(),
{
    GlobSetBuilder::new()
}

/// `GlobSetBuilder::add`: appends a glob to the builder.
#[verifier::external_body]
fn add_glob(b: &mut GlobSetBuilder, g: Glob)
    ensures
        builder_patterns(*final(b)) == builder_patterns(*old(b)).push(glob_pattern(g)),
{
    b.add(g);
}

/// `GlobSetBuilder::build`: a set of the builder's globs. Its outcome depends
/// on those globs alone and is named `glob_set_error`; a built set holds the
/// builder's globs. The error is converted to its display text.
#[verifier::external_body]
fn build_glob_set(b: &GlobSetBuilder) -> (out: Result<GlobSet, String>)
    ensures
        match out {
            Ok(s) => glob_set_error(builder_patterns(*b)) is None && set_patterns(s) == builder_patterns(*b),
            Err(m) => glob_set_error(builder_patterns(*b)) == Some(m@),
        },
{
    match b.build() {
        Ok(set) => Ok(set),
        Err(error) => Err(error.to_string()),
    }
}

/// `GlobSet::is_match`: whether a glob of the set matches the path. The
/// answer depends on the set's globs and the path alone and is named
/// `glob_set_match`.
#[verifier::external_body]
fn glob_set_is_match(s: &GlobSet, path: &str) -> (res: bool)
    ensures
        res == glob_set_match(set_patterns(*s), path@),
{
    s.is_match(path)
}

/// The compiled blocked-path policy of a project.
pub struct BlockPolicy {
    pub set: GlobSet,
}

impl BlockPolicy {
    /// The patterns the policy was compiled from.
    pub open spec fn patterns(&self) -> Seq<Seq<char>> {
        set_patterns(self.set)
    }
}

/// The error text of the first of the first `n` patterns that does not
/// compile, if any.
pub open spec fn first_bad_pattern(patterns: Seq<Seq<char>>, n: nat) -> Option<Seq<char>>
    decreases n,
{
    if n == 0 {
        None
    } else {
        match first_bad_pattern(patterns, (n - 1) as nat) {
            Some(e) => Some(e),
            None => case_insensitive_glob(patterns[n - 1]),
        }
    }
}

/// What compiling a blocked-path policy gives: `Ok`, or the message of its
/// first failure.
pub open spec fn policy_spec(patterns: Seq<Seq<char>>) -> Result<(), Seq<char>> {
    match first_bad_pattern(patterns, patterns.len()) {
        Some(e) => Err("invalid blocked path glob: "@ + e),
        None => match glob_set_error(patterns) {
            Some(e) => Err("invalid blocked path policy: "@ + e),
            None => Ok(()),
        },
    }
}

/// Compiles the blocked-path patterns, each matching case-insensitively: on
/// case-insensitive file systems `OVH.TXT` opens the same file as `ovh.txt`.
pub fn blocked_set(patterns: &Vec<String>) -> (out: Result<BlockPolicy, GraphError>)
    ensures
        match (out, policy_spec(views(patterns@))) {
            (Ok(p), Ok(())) => p.patterns() == views(patterns@),
            (Err(e), Err(m)) => e.text() == m,
            _ => false,
        },
{
    let ghost ps = views(patterns@);
    let mut builder = new_glob_set_builder();
    let mut i: usize = 0;
    while i < patterns.len()
        invariant
            ps == views(patterns@),
            i <= patterns@.len(),
            first_bad_pattern(ps, i as nat) is None,
            builder_patterns(builder) == ps.take(i as int),
        decreases patterns.len() - i,
    {
        match compile_glob(patterns[i].as_str()) {
            Ok(glob) => {
                add_glob(&mut builder, glob);
                assert(ps.take(i + 1) =~= ps.take(i as int).push(ps[i as int]));
            },
            Err(m) => {
                proof {
                    lemma_first_bad_stays(ps, (i + 1) as nat, ps.len());
                }
                let mut text = owned("invalid blocked path glob: ");
                push_str(&mut text, m.as_str());
                return Err(GraphError::msg(text));
            },
        }
        i = i + 1;
    }
    assert(ps.take(ps.len() as int) =~= ps);
    match build_glob_set(&builder) {
        Ok(set) => Ok(BlockPolicy { set }),
        Err(m) => {
            let mut text = owned("invalid blocked path policy: ");
            push_str(&mut text, m.as_str());
            Err(GraphError::msg(text))
        },
    }
}

/// Once a pattern fails, the first failure stays the same.
proof fn lemma_first_bad_stays(patterns: Seq<Seq<char>>, n: nat, m: nat)
    requires
        n <= m,
        first_bad_pattern(patterns, n) is Some,
    ensures
        first_bad_pattern(patterns, m) == first_bad_pattern(patterns, n),
    decreases m - n,
{
    if n < m {
        lemma_first_bad_stays(patterns, n, (m - 1) as nat);
    }
}

/// Whether the policy blocks the path.
pub fn is_blocked(policy: &BlockPolicy, path: &str) -> (res: bool)
    ensures
        res == glob_set_match(policy.patterns(), path@),
{
    glob_set_is_match(&policy.set, path)
}

/// What checking an evidence path before it is opened gives: the normalized
/// path, or why it may not be read.
pub open spec fn check_relative_spec(patterns: Seq<Seq<char>>, relative: Seq<char>) -> Result<Seq<char>, Seq<char>> {
    let n = normalize_relative(relative);
    if unsafe_relative(n) {
        Err("Unsafe evidence path: "@ + debug_str(relative))
    } else if glob_set_match(patterns, n) {
        Err("Evidence path is blocked by project policy: "@ + n)
    } else {
        Ok(n)
    }
}

/// Checks an evidence path before it is opened: it must stay inside the
/// project and must not be blocked. Gives the normalized path.
pub fn check_relative(policy: &BlockPolicy, relative: &str) -> (out: Result<String, GraphError>)
    ensures
        match (out, check_relative_spec(policy.patterns(), relative@)) {
            (Ok(n), Ok(v)) => n@ == v,
            (Err(e), Err(m)) => e.text() == m,
            _ => false,
        },
{
    let slashed = replace_char_str(relative, '\\', '/');
    let normalized = trim_slashes(slashed.as_str());
    if is_unsafe_relative(normalized.as_str()) {
        let mut m = owned("Unsafe evidence path: ");
        let q = debug_quote(relative);
        push_str(&mut m, q.as_str());
        return Err(GraphError::msg(m));
    }
    if is_blocked(policy, normalized.as_str()) {
        let mut m = owned("Evidence path is blocked by project policy: ");
        push_str(&mut m, normalized.as_str());
        return Err(GraphError::msg(m));
    }
    Ok(normalized)
}

/// What checking the file an evidence path resolved to gives: `resolved` is
/// the canonical path, or `None` when the file does not exist.
pub open spec fn check_resolved_spec(
    patterns: Seq<Seq<char>>,
    root: Seq<char>,
    relative: Seq<char>,
    normalized: Seq<char>,
    resolved: Option<Seq<char>>,
) -> Result<(), Seq<char>> {
    match resolved {
        None => Err("Evidence source does not exist: "@ + normalized),
        Some(r) => match relative_slash_spec(root, r) {
            Err(_) => Err("Evidence path escapes project root: "@ + debug_str(relative)),
            Ok(c) => if glob_set_match(patterns, c) {
                Err("Evidence path is blocked by project policy: "@ + c)
            } else {
                Ok(())
            },
        },
    }
}

/// Checks the canonical file an evidence path resolved to: it must lie inside
/// the canonical project root, and its own project-relative path must not be
/// blocked either, so that a link with an innocent name cannot open a blocked
/// file.
pub fn check_resolved(
    policy: &BlockPolicy,
    root: &str,
    relative: &str,
    normalized: &str,
    resolved: Option<&str>,
) -> (out: Result<(), GraphError>)
    ensures
        match (out, check_resolved_spec(
            policy.patterns(),
            root@,
            relative@,
            normalized@,
            match resolved {
                Some(r) => Some(r@),
                None => None,
            },
        )) {
            (Ok(()), Ok(())) => true,
            (Err(e), Err(m)) => e.text() == m,
            _ => false,
        },
{
    let r = match resolved {
        None => {
            let mut m = owned("Evidence source does not exist: ");
            push_str(&mut m, normalized);
            return Err(GraphError::msg(m));
        },
        Some(r) => r,
    };
    let canonical = match relative_slash(root, r) {
        Err(_) => {
            let mut m = owned("Evidence path escapes project root: ");
            let q = debug_quote(relative);
            push_str(&mut m, q.as_str());
            return Err(GraphError::msg(m));
        },
        Ok(c) => c,
    };
    if is_blocked(policy, canonical.as_str()) {
        let mut m = owned("Evidence path is blocked by project policy: ");
        push_str(&mut m, canonical.as_str());
        return Err(GraphError::msg(m));
    }
    Ok(())
}

/// The rank of a component in path order: the root, a leading `.`, `..`,
/// then names.
pub open spec fn comp_rank(t: Seq<char>) -> int {
    if t == seq!['/'] {
        1
    } else if t == seq!['.'] {
        2
    } else if t == seq!['.', '.'] {
        3
    } else {
        4
    }
}

/// Component order: by rank, then names by string order.
pub open spec fn comp_lt(a: Seq<char>, b: Seq<char>) -> bool {
    comp_rank(a) < comp_rank(b) || (comp_rank(a) == comp_rank(b) && crate::keyed::lex_lt(a, b))
}

/// Lexicographic order of component lists.
pub open spec fn comps_lt(a: Seq<Seq<char>>, b: Seq<Seq<char>>) -> bool
    decreases a.len(),
{
    if a.len() == 0 {
        b.len() > 0
    } else if b.len() == 0 {
        false
    } else if a[0] != b[0] {
        comp_lt(a[0], b[0])
    } else {
        comps_lt(a.drop_first(), b.drop_first())
    }
}

/// Path order (`Ord for Path`): component by component.
pub open spec fn path_lt(a: Seq<char>, b: Seq<char>) -> bool {
    comps_lt(comp_texts(path_comps(a)), comp_texts(path_comps(b)))
}

/// Two paths with the same components are the same path.
pub open spec fn same_path(a: Seq<char>, b: Seq<char>) -> bool {
    comp_texts(path_comps(a)) == comp_texts(path_comps(b))
}

proof fn lemma_comps_irreflexive(a: Seq<Seq<char>>)
    ensures
        !comps_lt(a, a),
    decreases a.len(),
{
    if a.len() > 0 {
        lemma_comps_irreflexive(a.drop_first());
    }
}

proof fn lemma_comps_transitive(a: Seq<Seq<char>>, b: Seq<Seq<char>>, c: Seq<Seq<char>>)
    requires
        comps_lt(a, b),
        comps_lt(b, c),
    ensures
        comps_lt(a, c),
    decreases a.len(),
{
    if a.len() > 0 && b.len() > 0 && c.len() > 0 {
        if a[0] == b[0] && b[0] == c[0] {
            lemma_comps_transitive(a.drop_first(), b.drop_first(), c.drop_first());
        } else if a[0] != b[0] && b[0] != c[0] && a[0] != c[0] {
            if comp_rank(a[0]) == comp_rank(b[0]) && comp_rank(b[0]) == comp_rank(c[0]) {
                crate::keyed::lemma_lex_transitive(a[0], b[0], c[0]);
            }
        } else if a[0] != b[0] && b[0] != c[0] && a[0] == c[0] {
            if comp_rank(a[0]) == comp_rank(b[0]) {
                crate::keyed::lemma_lex_asymmetric(a[0], b[0]);
            }
        }
    }
}

proof fn lemma_comps_total(a: Seq<Seq<char>>, b: Seq<Seq<char>>)
    ensures
        a != b ==> comps_lt(a, b) || comps_lt(b, a),
    decreases a.len(),
{
    if a.len() > 0 && b.len() > 0 {
        if a[0] == b[0] {
            lemma_comps_total(a.drop_first(), b.drop_first());
            if a.drop_first() == b.drop_first() {
                assert(a =~= seq![a[0]] + a.drop_first());
                assert(b =~= seq![b[0]] + b.drop_first());
            }
        } else {
            crate::keyed::lemma_lex_total(a[0], b[0]);
        }
    } else if a.len() == 0 && b.len() == 0 {
        assert(a =~= b);
    }
}

/// Whether path `a` comes before path `b`.
fn path_less(a: &str, b: &str) -> (res: bool)
    ensures
        res == path_lt(a@, b@),
{
    let ac = components(a);
    let bc = components(b);
    let ghost at = comp_texts(path_comps(a@));
    let ghost bt = comp_texts(path_comps(b@));
    let mut i: usize = 0;
    assert(at.skip(0) =~= at);
    assert(bt.skip(0) =~= bt);
    while i < ac.len() && i < bc.len() && crate::text::str_eq(ac[i].0.as_str(), bc[i].0.as_str())
        invariant
            at == comp_texts(comps_view(ac@)),
            bt == comp_texts(comps_view(bc@)),
            i <= ac@.len(),
            i <= bc@.len(),
            path_lt(a@, b@) == comps_lt(at.skip(i as int), bt.skip(i as int)),
        decreases ac.len() - i,
    {
        assert(at.skip(i as int).drop_first() =~= at.skip(i + 1));
        assert(bt.skip(i as int).drop_first() =~= bt.skip(i + 1));
        assert(at.skip(i as int)[0] == at[i as int]);
        assert(bt.skip(i as int)[0] == bt[i as int]);
        i = i + 1;
    }
    if i == ac.len() {
        return i < bc.len();
    }
    if i == bc.len() {
        return false;
    }
    let x = ac[i].0.as_str();
    let y = bc[i].0.as_str();
    assert(at.skip(i as int)[0] == x@);
    assert(bt.skip(i as int)[0] == y@);
    let rx = component_rank(x);
    let ry = component_rank(y);
    rx < ry || (rx == ry && crate::keyed::str_lt(x, y))
}

/// The rank of a component.
fn component_rank(t: &str) -> (r: u8)
    ensures
        r == comp_rank(t@),
{
    let v = chars_of(t);
    if v.len() == 1 && v[0] == '/' {
        assert(t@ =~= seq!['/']);
        1
    } else if v.len() == 1 && v[0] == '.' {
        assert(t@ =~= seq!['.']);
        2
    } else if v.len() == 2 && v[0] == '.' && v[1] == '.' {
        assert(t@ =~= seq!['.', '.']);
        3
    } else {
        assert(t@ != seq!['/']) by {
            if t@.len() == 1 {
                assert(t@[0] != '/' || v@[0] != '/');
            }
        }
        assert(t@ != seq!['.']) by {
            if t@.len() == 1 {
                assert(t@[0] != '.' || v@[0] != '.');
            }
        }
        assert(t@ != seq!['.', '.']) by {
            if t@.len() == 2 {
                assert(t@[0] != '.' || t@[1] != '.');
            }
        }
        4
    }
}

/// Some path of `v` has the same components as `p`.
pub open spec fn has_same_path(v: Seq<String>, p: Seq<char>) -> bool {
    exists|j: int| 0 <= j < v.len() && same_path((#[trigger] v[j])@, p)
}

/// Whether two paths have the same components.
fn path_same(a: &str, b: &str) -> (res: bool)
    ensures
        res == same_path(a@, b@),
{
    let lt = path_less(a, b);
    let gt = path_less(b, a);
    proof {
        lemma_comps_total(comp_texts(path_comps(a@)), comp_texts(path_comps(b@)));
        lemma_comps_irreflexive(comp_texts(path_comps(a@)));
    }
    !lt && !gt
}

/// `p` is one of `paths`, and no path given before it has its components.
pub open spec fn first_of_its_path(paths: Seq<String>, p: Seq<char>) -> bool {
    exists|i: int|
        0 <= i < paths.len() && (#[trigger] paths[i])@ == p && forall|j: int|
            0 <= j < i ==> !same_path((#[trigger] paths[j])@, p)
}

/// The paths in path order, each path once: of paths with the same
/// components the first one given is kept.
pub fn sort_paths(paths: &Vec<String>) -> (out: Vec<String>)
    ensures
        forall|i: int, j: int| 0 <= i < j < out@.len() ==> path_lt((#[trigger] out@[i])@, (#[trigger] out@[j])@),
        forall|k: int| 0 <= k < out@.len() ==> first_of_its_path(paths@, (#[trigger] out@[k])@),
        forall|k: int| 0 <= k < paths@.len() ==> has_same_path(out@, (#[trigger] paths@[k])@),
{
    let mut out: Vec<String> = Vec::new();
    let mut i: usize = 0;
    while i < paths.len()
        invariant
            i <= paths@.len(),
            forall|x: int, y: int| 0 <= x < y < out@.len() ==> path_lt((#[trigger] out@[x])@, (#[trigger] out@[y])@),
            forall|k: int| 0 <= k < out@.len() ==> first_of_its_path(paths@, (#[trigger] out@[k])@),
            forall|k: int| 0 <= k < i ==> has_same_path(out@, (#[trigger] paths@[k])@),
        decreases paths.len() - i,
    {
        let p = paths[i].as_str();
        let mut pos: usize = 0;
        while pos < out.len() && path_less(out[pos].as_str(), p)
            invariant
                pos <= out@.len(),
                forall|x: int| 0 <= x < pos ==> path_lt((#[trigger] out@[x])@, p@),
            decreases out.len() - pos,
        {
            pos = pos + 1;
        }
        assert(views(paths@)[i as int] == p@);
        if pos < out.len() && path_same(out[pos].as_str(), p) {
            assert(same_path(out@[pos as int]@, paths@[i as int]@));
            assert(has_same_path(out@, paths@[i as int]@));
        } else {
            let ghost a = out@;
            let ghost pc = comp_texts(path_comps(p@));
            proof {
                if pos < a.len() {
                    lemma_comps_total(comp_texts(path_comps(a[pos as int]@)), pc);
                }
            }
            out.insert(pos, paths[i].clone());
            let ghost b = out@;
            assert forall|x: int, y: int| 0 <= x < y < b.len() implies path_lt((#[trigger] b[x])@, (#[trigger] b[y])@) by {
                let tx = comp_texts(path_comps(b[x]@));
                let ty = comp_texts(path_comps(b[y]@));
                if y < pos {
                    assert(b[x] == a[x] && b[y] == a[y]);
                } else if y == pos {
                    assert(b[x] == a[x]);
                } else if x == pos {
                    assert(b[y] == a[y - 1]);
                    if y - 1 > pos {
                        assert(path_lt(a[pos as int]@, a[y - 1]@));
                        lemma_comps_transitive(pc, comp_texts(path_comps(a[pos as int]@)), comp_texts(path_comps(a[y - 1]@)));
                    }
                } else if x < pos {
                    assert(b[x] == a[x] && b[y] == a[y - 1]);
                    lemma_comps_transitive(comp_texts(path_comps(a[x]@)), pc, comp_texts(path_comps(a[pos as int]@)));
                    if y - 1 > pos {
                        assert(path_lt(a[pos as int]@, a[y - 1]@));
                        lemma_comps_transitive(comp_texts(path_comps(a[x]@)), comp_texts(path_comps(a[pos as int]@)), comp_texts(path_comps(a[y - 1]@)));
                    }
                } else {
                    assert(b[x] == a[x - 1] && b[y] == a[y - 1]);
                }
            }
            assert forall|m: int| 0 <= m < a.len() implies !same_path((#[trigger] a[m])@, p@) by {
                let tm = comp_texts(path_comps(a[m]@));
                if m < pos {
                    lemma_comps_irreflexive(pc);
                } else if m > pos {
                    assert(path_lt(a[pos as int]@, a[m]@));
                    lemma_comps_transitive(pc, comp_texts(path_comps(a[pos as int]@)), tm);
                    lemma_comps_irreflexive(pc);
                }
            }
            assert forall|j: int| 0 <= j < i implies !same_path((#[trigger] paths@[j])@, p@) by {
                assert(has_same_path(a, paths@[j]@));
                let m = choose|m: int| 0 <= m < a.len() && same_path((#[trigger] a[m])@, paths@[j]@);
                assert(!same_path(a[m]@, p@));
            }
            assert(first_of_its_path(paths@, p@)) by {
                assert(paths@[i as int]@ == p@);
            }
            assert forall|k: int| 0 <= k < b.len() implies first_of_its_path(paths@, (#[trigger] b[k])@) by {
                if k < pos {
                    assert(b[k] == a[k]);
                } else if k > pos {
                    assert(b[k] == a[k - 1]);
                } else {
                    assert(b[k]@ == p@);
                }
            }
            assert forall|k: int| 0 <= k < i implies has_same_path(b, (#[trigger] paths@[k])@) by {
                assert(has_same_path(a, paths@[k]@));
                let j = choose|j: int| 0 <= j < a.len() && same_path((#[trigger] a[j])@, paths@[k]@);
                if j < pos {
                    assert(b[j] == a[j]);
                } else {
                    assert(b[j + 1] == a[j]);
                }
            }
            assert(same_path(b[pos as int]@, paths@[i as int]@));
            assert(has_same_path(b, paths@[i as int]@));
        }
        i = i + 1;
    }
    out
}

} // verus!
