//! Queries over the index: search terms, node resolution, directions, paths
//! between nodes, and the subject of an evidence lookup.

use vstd::prelude::*;
use crate::error::GraphError;
use crate::graph::{shortest_path, GraphEdge, Step};
use crate::model::Direction;
use crate::text::{
    alphanumeric, debug_quote, debug_str, decimal, decimal_string, is_alphanumeric, join,
    join_strings, list_contains, owned, push_char, push_str, str_eq, views, chars_of,
};

verus! {

/// The words of `s` after the partial word `cur`: maximal runs of
/// alphanumeric characters.
pub open spec fn words_from(s: Seq<char>, cur: Seq<char>) -> Seq<Seq<char>>
    decreases s.len(),
{
    if s.len() == 0 {
        if cur.len() == 0 {
            seq![]
        } else {
            seq![cur]
        }
    } else if !alphanumeric(s[0]) {
        (if cur.len() == 0 {
            seq![]
        } else {
            seq![cur]
        }) + words_from(s.drop_first(), seq![])
    } else {
        words_from(s.drop_first(), cur.push(s[0]))
    }
}

/// The words of a search term: its maximal runs of alphanumeric characters.
pub open spec fn words(s: Seq<char>) -> Seq<Seq<char>> {
    words_from(s, seq![])
}

/// A word in double quotes.
pub open spec fn quoted_word(w: Seq<char>) -> Seq<char> {
    seq!['"'] + w + seq!['"']
}

/// The full-text query for a term: its first sixteen words, each quoted so
/// that words such as `AND` or `NEAR` are plain tokens, joined by ` AND `;
/// `None` when the term has no word.
pub open spec fn fts_query_spec(term: Seq<char>) -> Option<Seq<char>> {
    let w = words(term);
    let taken = if w.len() > 16 {
        w.take(16)
    } else {
        w
    };
    if taken.len() == 0 {
        None
    } else {
        Some(join(taken.map_values(|x: Seq<char>| quoted_word(x)), " AND "@))
    }
}

/// The words of a term.
fn split_words(term: &str) -> (out: Vec<String>)
    ensures
        views(out@) == words(term@),
{
    let v = chars_of(term);
    let mut out: Vec<String> = Vec::new();
    let mut cur: Vec<char> = Vec::new();
    let mut i: usize = 0;
    assert(term@.skip(0) =~= term@);
    assert(views(out@) + words(term@) =~= words(term@));
    while i < v.len()
        invariant
            v@ == term@,
            i <= v.len(),
            words(term@) == views(out@) + words_from(term@.skip(i as int), cur@),
        decreases v.len() - i,
    {
        let ghost rest = term@.skip(i as int);
        assert(rest.drop_first() =~= term@.skip(i + 1));
        assert(rest[0] == v@[i as int]);
        if !is_alphanumeric(v[i]) {
            let ghost before = views(out@);
            if cur.len() > 0 {
                let word = crate::text::string_from_chars(cur.as_slice());
                out.push(word);
                assert(views(out@) =~= before.push(cur@));
            } else {
                assert(views(out@) =~= before);
            }
            assert(views(out@) + words_from(rest.drop_first(), seq![]) =~= before + ((if cur@.len() == 0 {
                Seq::<Seq<char>>::empty()
            } else {
                seq![cur@]
            }) + words_from(rest.drop_first(), seq![])));
            cur = Vec::new();
            assert(cur@ =~= Seq::<char>::empty());
        } else {
            cur.push(v[i]);
        }
        i = i + 1;
    }
    assert(term@.skip(v.len() as int) =~= Seq::<char>::empty());
    if cur.len() > 0 {
        let ghost before = views(out@);
        let word = crate::text::string_from_chars(cur.as_slice());
        out.push(word);
        assert(views(out@) =~= before.push(cur@));
        assert(before + seq![cur@] =~= views(out@));
    } else {
        assert(views(out@) + Seq::<Seq<char>>::empty() =~= views(out@));
    }
    out
}

/// The full-text query for a search term, or `None` when it has no word.
pub fn fts_query(term: &str) -> (out: Option<String>)
    ensures
        match out {
            Some(q) => fts_query_spec(term@) == Some(q@),
            None => fts_query_spec(term@) is None,
        },
{
    let all = split_words(term);
    let ghost w = words(term@);
    let ghost taken = if w.len() > 16 {
        w.take(16)
    } else {
        w
    };
    let n: usize = if all.len() > 16 {
        16
    } else {
        all.len()
    };
    let mut quoted: Vec<String> = Vec::new();
    let mut i: usize = 0;
    while i < n
        invariant
            n <= all@.len(),
            views(all@) == w,
            taken == w.take(n as int),
            i <= n,
            views(quoted@) == taken.take(i as int).map_values(|x: Seq<char>| quoted_word(x)),
        decreases n - i,
    {
        let mut q = String::new();
        push_char(&mut q, '"');
        push_str(&mut q, all[i].as_str());
        push_char(&mut q, '"');
        assert(views(all@)[i as int] == all@[i as int]@);
        assert(taken[i as int] == w[i as int]);
        assert(q@ =~= quoted_word(taken[i as int]));
        let ghost before = quoted@;
        quoted.push(q);
        assert(views(quoted@) =~= views(before).push(quoted_word(taken[i as int])));
        assert(taken.take(i + 1).map_values(|x: Seq<char>| quoted_word(x)) =~= taken.take(i as int).map_values(
            |x: Seq<char>| quoted_word(x),
        ).push(quoted_word(taken[i as int])));
        i = i + 1;
    }
    assert(taken.take(n as int) =~= taken);
    if n == 0 {
        None
    } else {
        Some(join_strings(&quoted, " AND "))
    }
}

/// `s` with `\`, `%` and `_` escaped by a backslash.
pub open spec fn like_escape(s: Seq<char>) -> Seq<char>
    decreases s.len(),
{
    if s.len() == 0 {
        seq![]
    } else {
        let c = s.last();
        like_escape(s.drop_last()) + if c == '\\' || c == '%' || c == '_' {
            seq!['\\', c]
        } else {
            seq![c]
        }
    }
}

/// A LIKE pattern that matches any text containing `term`, with `%`, `_` and
/// `\` in the term taken literally (paired with `ESCAPE '\'`).
pub fn like_pattern(term: &str) -> (out: String)
    ensures
        out@ == seq!['%'] + like_escape(term@) + seq!['%'],
{
    let v = chars_of(term);
    let mut out = String::new();
    push_char(&mut out, '%');
    let mut i: usize = 0;
    while i < v.len()
        invariant
            v@ == term@,
            i <= v.len(),
            out@ == seq!['%'] + like_escape(term@.take(i as int)),
        decreases v.len() - i,
    {
        let c = v[i];
        if c == '\\' || c == '%' || c == '_' {
            push_char(&mut out, '\\');
        }
        push_char(&mut out, c);
        assert(term@.take(i + 1).drop_last() =~= term@.take(i as int));
        assert(term@.take(i + 1).last() == c);
        i = i + 1;
    }
    assert(term@.take(v.len() as int) =~= term@);
    push_char(&mut out, '%');
    out
}

/// The direction a name denotes, if any.
pub open spec fn direction_of(s: Seq<char>) -> Option<Direction> {
    if s == "in"@ {
        Some(Direction::In)
    } else if s == "out"@ {
        Some(Direction::Out)
    } else if s == "both"@ {
        Some(Direction::Both)
    } else {
        None
    }
}

/// The direction named `in`, `out` or `both`.
pub fn parse_direction(s: &str) -> (out: Result<Direction, GraphError>)
    ensures
        match out {
            Ok(d) => direction_of(s@) == Some(d),
            Err(e) => direction_of(s@) is None && e.text() == "direction must be in, out, or both"@,
        },
{
    if str_eq(s, "in") {
        Ok(Direction::In)
    } else if str_eq(s, "out") {
        Ok(Direction::Out)
    } else if str_eq(s, "both") {
        Ok(Direction::Both)
    } else {
        Err(GraphError::msg(owned("direction must be in, out, or both")))
    }
}

/// Which node a lookup value names: an exact id first, then an alias (case
/// does not matter), then the single node whose id or name contains it.
/// `fuzzy` is the sorted list of ids of nodes that contain it, at most eleven.
pub open spec fn choose_node_spec(
    value: Seq<char>,
    exact: Option<Seq<char>>,
    alias: Option<Seq<char>>,
    fuzzy: Seq<Seq<char>>,
) -> Result<Seq<char>, Seq<char>> {
    match exact {
        Some(id) => Ok(id),
        None => match alias {
            Some(id) => Ok(id),
            None => if fuzzy.len() == 0 {
                Err("No node matches "@ + debug_str(value))
            } else if fuzzy.len() == 1 {
                Ok(fuzzy[0])
            } else {
                Err(
                    "Ambiguous node "@ + debug_str(value) + "; matches: "@ + join(
                        if fuzzy.len() > 10 {
                            fuzzy.take(10)
                        } else {
                            fuzzy
                        },
                        ", "@,
                    ),
                )
            },
        },
    }
}

/// A lookup resolves exactly: an exact id wins, then an alias; otherwise the
/// value resolves only when exactly one node matches it loosely, and two or
/// more loose matches are an error, never a pick.
pub proof fn law_loose_lookup_needs_one_match(
    value: Seq<char>,
    exact: Option<Seq<char>>,
    alias: Option<Seq<char>>,
    fuzzy: Seq<Seq<char>>,
)
    ensures
        exact is Some ==> choose_node_spec(value, exact, alias, fuzzy) == Ok::<Seq<char>, Seq<char>>(exact->0),
        exact is None && alias is Some ==> choose_node_spec(value, exact, alias, fuzzy) == Ok::<Seq<char>, Seq<char>>(alias->0),
        exact is None && alias is None ==> (choose_node_spec(value, exact, alias, fuzzy) is Ok <==> fuzzy.len() == 1),
        exact is None && alias is None && fuzzy.len() == 1 ==> choose_node_spec(value, exact, alias, fuzzy) == Ok::<Seq<char>, Seq<char>>(fuzzy[0]),
{
}

/// Which node a lookup value names, given what the index holds: the id of
/// the node whose id is exactly `value`, of the node an alias `value` points
/// at, and of the nodes whose id or name contains `value`.
pub fn choose_node(
    value: &str,
    exact: Option<String>,
    alias: Option<String>,
    fuzzy: &Vec<String>,
) -> (out: Result<String, GraphError>)
    ensures
        match (out, choose_node_spec(
            value@,
            crate::lock::opt_view(exact),
            crate::lock::opt_view(alias),
            views(fuzzy@),
        )) {
            (Ok(id), Ok(v)) => id@ == v,
            (Err(e), Err(m)) => e.text() == m,
            _ => false,
        },
{
    if let Some(id) = exact {
        return Ok(id);
    }
    if let Some(id) = alias {
        return Ok(id);
    }
    if fuzzy.len() == 0 {
        let mut m = owned("No node matches ");
        let q = debug_quote(value);
        push_str(&mut m, q.as_str());
        return Err(GraphError::msg(m));
    }
    if fuzzy.len() == 1 {
        return Ok(fuzzy[0].clone());
    }
    let mut shown: Vec<String> = Vec::new();
    let n: usize = if fuzzy.len() > 10 {
        10
    } else {
        fuzzy.len()
    };
    let mut i: usize = 0;
    while i < n
        invariant
            n <= fuzzy@.len(),
            i <= n,
            shown@ == fuzzy@.take(i as int),
        decreases n - i,
    {
        shown.push(fuzzy[i].clone());
        assert(fuzzy@.take(i + 1) =~= fuzzy@.take(i as int).push(fuzzy@[i as int]));
        i = i + 1;
    }
    assert(views(shown@) =~= if fuzzy@.len() > 10 {
        views(fuzzy@).take(10)
    } else {
        views(fuzzy@)
    });
    let mut m = owned("Ambiguous node ");
    let q = debug_quote(value);
    push_str(&mut m, q.as_str());
    push_str(&mut m, "; matches: ");
    let list = join_strings(&shown, ", ");
    push_str(&mut m, list.as_str());
    Err(GraphError::msg(m))
}

/// A shortest walk between two nodes of at most `max_depth` steps (of the
/// shortest walks, the one that comes first in row order), or the message
/// that there is none.
pub fn path_between(
    edges: &Vec<GraphEdge>,
    start: &str,
    goal: &str,
    max_depth: usize,
    direction: Direction,
) -> (out: Result<Vec<Step>, GraphError>)
    ensures
        match out {
            Ok(p) => {
                &&& crate::graph::is_walk(edges@, direction, start@, crate::graph::steps_view(p@))
                &&& crate::graph::walk_end(start@, crate::graph::steps_view(p@)) == goal@
                &&& p@.len() <= max_depth
                &&& forall|other: Seq<(Seq<char>, int)>|
                    crate::graph::is_walk(edges@, direction, start@, other) && #[trigger] crate::graph::walk_end(
                        start@,
                        other,
                    ) == goal@ ==> other.len() >= p@.len()
                &&& forall|other: Seq<(Seq<char>, int)>|
                    crate::graph::is_walk(edges@, direction, start@, other) && #[trigger] crate::graph::walk_end(
                        start@,
                        other,
                    ) == goal@ && other.len() == p@.len() ==> !crate::graph::rows_before(
                        crate::graph::walk_rows(other),
                        crate::graph::walk_rows(crate::graph::steps_view(p@)),
                    )
            },
            Err(e) => {
                &&& e.text() == "No path from "@ + start@ + " to "@ + goal@ + " within "@ + decimal(max_depth as nat)
                    + " hops"@
                &&& forall|other: Seq<(Seq<char>, int)>|
                    crate::graph::is_walk(edges@, direction, start@, other) && #[trigger] crate::graph::walk_end(
                        start@,
                        other,
                    ) == goal@ ==> other.len() > max_depth
            },
        },
{
    match shortest_path(edges, start, goal, max_depth, direction) {
        Some(p) => Ok(p),
        None => {
            let mut m = owned("No path from ");
            push_str(&mut m, start);
            push_str(&mut m, " to ");
            push_str(&mut m, goal);
            push_str(&mut m, " within ");
            let d = decimal_string(max_depth);
            push_str(&mut m, d.as_str());
            push_str(&mut m, " hops");
            Err(GraphError::msg(m))
        },
    }
}

/// What an evidence lookup is about: a node whose id is the subject, else an
/// edge whose id is the subject; `None` when the subject must be resolved as
/// a node name or alias.
pub fn evidence_subject(subject: &str, is_node: bool, is_edge: bool) -> (out: Option<(&'static str, String)>)
    ensures
        is_node ==> (out matches Some((k, id)) && k@ == "node"@ && id@ == subject@),
        !is_node && is_edge ==> (out matches Some((k, id)) && k@ == "edge"@ && id@ == subject@),
        !is_node && !is_edge ==> out is None,
{
    if is_node {
        Some(("node", owned(subject)))
    } else if is_edge {
        Some(("edge", owned(subject)))
    } else {
        None
    }
}

/// The positions of the ids that are among `wanted`, in increasing order:
/// which of the index's node rows a node set keeps, in the index's order.
pub fn select_ids(ids: &Vec<String>, wanted: &Vec<String>) -> (out: Vec<usize>)
    ensures
        forall|a: int, b: int| 0 <= a < b < out@.len() ==> out@[a] < out@[b],
        forall|k: int| 0 <= k < out@.len() ==> out@[k] < ids@.len(),
        forall|i: int| 0 <= i < ids@.len() ==> (out@.contains(i as usize) <==> views(wanted@).contains(#[trigger] ids@[i]@)),
{
    let mut out: Vec<usize> = Vec::new();
    let mut i: usize = 0;
    while i < ids.len()
        invariant
            i <= ids@.len(),
            forall|a: int, b: int| 0 <= a < b < out@.len() ==> out@[a] < out@[b],
            forall|k: int| 0 <= k < out@.len() ==> out@[k] < i,
            forall|x: int| 0 <= x < i ==> (out@.contains(x as usize) <==> views(wanted@).contains(#[trigger] ids@[x]@)),
        decreases ids.len() - i,
    {
        let ghost before = out@;
        if list_contains(wanted, ids[i].as_str()) {
            out.push(i);
            assert forall|x: int| 0 <= x < i + 1 implies (out@.contains(x as usize) <==> views(wanted@).contains(#[trigger] ids@[x]@)) by {
                if x < i {
                    if before.contains(x as usize) {
                        let y = choose|y: int| 0 <= y < before.len() && before[y] == x as usize;
                        assert(out@[y] == x as usize);
                    }
                    if out@.contains(x as usize) {
                        let y = choose|y: int| 0 <= y < out@.len() && out@[y] == x as usize;
                        assert(y < before.len());
                        assert(before[y] == x as usize);
                    }
                } else {
                    assert(out@[before.len() as int] == i);
                }
            }
        } else {
            assert forall|x: int| 0 <= x < i + 1 implies (out@.contains(x as usize) <==> views(wanted@).contains(#[trigger] ids@[x]@)) by {
                if x == i {
                    if out@.contains(x as usize) {
                        let y = choose|y: int| 0 <= y < out@.len() && out@[y] == x as usize;
                        assert(out@[y] < i);
                    }
                }
            }
        }
        i = i + 1;
    }
    out
}

/// The nodes of a walk: its start, then the node each step reaches.
pub fn walk_ids(start: &str, steps: &Vec<Step>) -> (out: Vec<String>)
    ensures
        out@.len() == steps@.len() + 1,
        forall|k: int|
            0 <= k <= steps@.len() ==> (#[trigger] out@[k])@ == crate::graph::walk_node(
                start@,
                crate::graph::steps_view(steps@),
                k,
            ),
{
    let mut out: Vec<String> = Vec::new();
    out.push(owned(start));
    let mut i: usize = 0;
    while i < steps.len()
        invariant
            i <= steps@.len(),
            out@.len() == i + 1,
            forall|k: int|
                0 <= k <= i ==> (#[trigger] out@[k])@ == crate::graph::walk_node(
                    start@,
                    crate::graph::steps_view(steps@),
                    k,
                ),
        decreases steps.len() - i,
    {
        out.push(steps[i].0.clone());
        assert(crate::graph::steps_view(steps@)[i as int].0 == steps@[i as int].0@);
        i = i + 1;
    }
    out
}

/// Every word of `words_from(s, cur)` is a non-empty run of alphanumeric
/// characters, given that `cur` is one or is empty.
proof fn lemma_words_from_alphanumeric(s: Seq<char>, cur: Seq<char>)
    requires
        forall|i: int| 0 <= i < cur.len() ==> alphanumeric(#[trigger] cur[i]),
    ensures
        forall|k: int|
            0 <= k < words_from(s, cur).len() ==> (#[trigger] words_from(s, cur)[k]).len() > 0 && forall|i: int|
                0 <= i < words_from(s, cur)[k].len() ==> alphanumeric(#[trigger] words_from(s, cur)[k][i]),
    decreases s.len(),
{
    if s.len() == 0 {
        if cur.len() > 0 {
            assert(words_from(s, cur) == seq![cur]);
            assert forall|k: int| 0 <= k < words_from(s, cur).len() implies (#[trigger] words_from(s, cur)[k]).len() > 0 && forall|i: int|
                0 <= i < words_from(s, cur)[k].len() ==> alphanumeric(#[trigger] words_from(s, cur)[k][i]) by {
                assert(words_from(s, cur)[k] == cur);
            }
        }
    } else {
        if !alphanumeric(s[0]) {
            lemma_words_from_alphanumeric(s.drop_first(), seq![]);
            let head = if cur.len() == 0 {
                Seq::<Seq<char>>::empty()
            } else {
                seq![cur]
            };
            let tail = words_from(s.drop_first(), seq![]);
            assert forall|k: int| 0 <= k < (head + tail).len() implies (#[trigger] (head + tail)[k]).len() > 0 && forall|i: int|
                0 <= i < (head + tail)[k].len() ==> alphanumeric(#[trigger] (head + tail)[k][i]) by {
                if k >= head.len() {
                    assert((head + tail)[k] == tail[k - head.len()]);
                } else {
                    assert((head + tail)[k] == cur);
                }
            }
            assert(words_from(s, cur) == head + tail);
        } else {
            let next = cur.push(s[0]);
            assert forall|i: int| 0 <= i < next.len() implies alphanumeric(#[trigger] next[i]) by {
                if i < cur.len() {
                    assert(next[i] == cur[i]);
                }
            }
            lemma_words_from_alphanumeric(s.drop_first(), next);
            assert(words_from(s, cur) == words_from(s.drop_first(), next));
        }
    }
}

/// Search words hold only alphanumeric characters, so a quoted word is a
/// plain token to the full-text engine: operator words and punctuation in a
/// term never act as query syntax.
pub proof fn law_search_words_are_plain(term: Seq<char>)
    ensures
        forall|k: int|
            0 <= k < words(term).len() ==> (#[trigger] words(term)[k]).len() > 0 && forall|i: int|
                0 <= i < words(term)[k].len() ==> alphanumeric(#[trigger] words(term)[k][i]),
{
    lemma_words_from_alphanumeric(term, seq![]);
}

} // verus!
