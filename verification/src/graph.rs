//! Neighborhoods and shortest paths over the reviewed edges of the graph.
//!
//! Both searches take the edge rows as the index returns them and work on node
//! identifiers; which rows they select is returned as row positions.

use vstd::prelude::*;
use crate::model::Direction;
use crate::text::{list_contains, str_eq, views};

verus! {

/// An edge row: identifier, endpoints and predicate.
#[derive(Debug, Clone)]
pub struct GraphEdge {
    pub id: String,
    pub source: String,
    pub target: String,
    pub predicate: String,
}

/// The predicate filter admits the edge (no filter admits every edge).
pub open spec fn edge_allowed(e: GraphEdge, preds: Option<Seq<Seq<char>>>) -> bool {
    match preds {
        None => true,
        Some(p) => p.contains(e.predicate@),
    }
}

/// Following `e` in direction `dir` leads from `from` to `to`.
pub open spec fn adjacent(dir: Direction, e: GraphEdge, from: Seq<char>, to: Seq<char>) -> bool {
    let forward = e.source@ == from && e.target@ == to;
    let backward = e.target@ == from && e.source@ == to;
    match dir {
        Direction::Out => forward,
        Direction::In => backward,
        Direction::Both => forward || backward,
    }
}

/// Some admitted edge leads from `from` to `to`.
pub open spec fn hop(
    edges: Seq<GraphEdge>,
    dir: Direction,
    preds: Option<Seq<Seq<char>>>,
    from: Seq<char>,
    to: Seq<char>,
) -> bool {
    exists|i: int|
        0 <= i < edges.len() && edge_allowed(#[trigger] edges[i], preds) && adjacent(
            dir,
            edges[i],
            from,
            to,
        )
}

/// The nodes at most `k` hops from `start`.
pub open spec fn within(
    edges: Seq<GraphEdge>,
    dir: Direction,
    preds: Option<Seq<Seq<char>>>,
    start: Seq<char>,
    k: nat,
) -> Set<Seq<char>>
    decreases k,
{
    if k == 0 {
        Set::empty().insert(start)
    } else {
        let prev = within(edges, dir, preds, start, (k - 1) as nat);
        prev.union(
            Set::new(
                |n: Seq<char>| exists|m: Seq<char>| prev.contains(m) && hop(edges, dir, preds, m, n),
            ),
        )
    }
}

/// Walking `e` in direction `dir` from a node of `s` is possible: forwards from
/// its source, or backwards from its target.
pub open spec fn discovers(dir: Direction, e: GraphEdge, s: Set<Seq<char>>) -> bool {
    (dir != Direction::In && s.contains(e.source@)) || (dir != Direction::Out && s.contains(
        e.target@,
    ))
}

/// Edge `e` belongs to the neighborhood of depth `depth` around `start`.
/// Directed neighborhoods hold the edges walked from a node fewer than `depth`
/// hops away; undirected neighborhoods hold every admitted edge between two
/// nodes of the neighborhood (the induced edge set).
pub open spec fn neighborhood_edge(
    edges: Seq<GraphEdge>,
    dir: Direction,
    preds: Option<Seq<Seq<char>>>,
    start: Seq<char>,
    depth: nat,
    e: GraphEdge,
) -> bool {
    edge_allowed(e, preds) && match dir {
        Direction::Out => depth > 0 && within(edges, dir, preds, start, (depth - 1) as nat).contains(
            e.source@,
        ),
        Direction::In => depth > 0 && within(edges, dir, preds, start, (depth - 1) as nat).contains(
            e.target@,
        ),
        Direction::Both => within(edges, dir, preds, start, depth).contains(e.source@) && within(
            edges,
            dir,
            preds,
            start,
            depth,
        ).contains(e.target@),
    }
}

/// The view of an optional predicate filter.
pub open spec fn preds_view(p: Option<&Vec<String>>) -> Option<Seq<Seq<char>>> {
    match p {
        None => None,
        Some(v) => Some(views(v@)),
    }
}

/// A neighborhood: its nodes, and the positions of its edge rows.
#[derive(Debug, Clone)]
pub struct Neighborhood {
    pub nodes: Vec<String>,
    pub edges: Vec<usize>,
}

/// `within` grows with `k`.
pub proof fn lemma_within_monotone(
    edges: Seq<GraphEdge>,
    dir: Direction,
    preds: Option<Seq<Seq<char>>>,
    start: Seq<char>,
    k: nat,
    j: nat,
)
    requires
        k <= j,
    ensures
        within(edges, dir, preds, start, k).subset_of(within(edges, dir, preds, start, j)),
    decreases j - k,
{
    if k < j {
        lemma_within_monotone(edges, dir, preds, start, k, (j - 1) as nat);
    }
}

/// Once a level adds nothing, no later level does.
pub proof fn lemma_within_stable(
    edges: Seq<GraphEdge>,
    dir: Direction,
    preds: Option<Seq<Seq<char>>>,
    start: Seq<char>,
    k: nat,
    j: nat,
)
    requires
        k <= j,
        within(edges, dir, preds, start, k + 1) == within(edges, dir, preds, start, k),
    ensures
        within(edges, dir, preds, start, j) == within(edges, dir, preds, start, k),
    decreases j - k,
{
    if k < j {
        lemma_within_stable(edges, dir, preds, start, k, (j - 1) as nat);
        let prev = within(edges, dir, preds, start, (j - 1) as nat);
        assert(prev == within(edges, dir, preds, start, k));
        assert(within(edges, dir, preds, start, j) =~= within(edges, dir, preds, start, k + 1));
    }
}

/// The frontier of level `k`: the nodes exactly `k` hops away.
pub open spec fn frontier_set(
    edges: Seq<GraphEdge>,
    dir: Direction,
    preds: Option<Seq<Seq<char>>>,
    start: Seq<char>,
    k: nat,
) -> Set<Seq<char>> {
    if k == 0 {
        within(edges, dir, preds, start, 0)
    } else {
        within(edges, dir, preds, start, k).difference(
            within(edges, dir, preds, start, (k - 1) as nat),
        )
    }
}

/// The node reached by walking `e` from the frontier `f`, as a level scan
/// finds it: forwards first, then backwards.
pub open spec fn step_from(dir: Direction, e: GraphEdge, f: Set<Seq<char>>) -> Option<Seq<char>> {
    if dir != Direction::In && f.contains(e.source@) {
        Some(e.target@)
    } else if dir != Direction::Out && f.contains(e.target@) {
        Some(e.source@)
    } else {
        None
    }
}

/// One level of the search adds exactly the nodes walked to from the frontier.
proof fn lemma_level_step(
    edges: Seq<GraphEdge>,
    dir: Direction,
    preds: Option<Seq<Seq<char>>>,
    start: Seq<char>,
    k: nat,
    n: Seq<char>,
)
    ensures
        within(edges, dir, preds, start, k + 1).contains(n) <==> (within(
            edges,
            dir,
            preds,
            start,
            k,
        ).contains(n) || exists|i: int|
            0 <= i < edges.len() && edge_allowed(#[trigger] edges[i], preds) && step_from(
                dir,
                edges[i],
                frontier_set(edges, dir, preds, start, k),
            ) == Some(n)),
{
    let w = within(edges, dir, preds, start, k);
    let f = frontier_set(edges, dir, preds, start, k);
    let w1 = within(edges, dir, preds, start, k + 1);
    assert(f.subset_of(w));
    if w1.contains(n) && !w.contains(n) {
        let m = choose|m: Seq<char>| w.contains(m) && hop(edges, dir, preds, m, n);
        let i = choose|i: int|
            0 <= i < edges.len() && edge_allowed(#[trigger] edges[i], preds) && adjacent(
                dir,
                edges[i],
                m,
                n,
            );
        if k > 0 {
            let wp = within(edges, dir, preds, start, (k - 1) as nat);
            if wp.contains(m) {
                assert(w.contains(n));
            }
        }
        assert(f.contains(m));
        assert(step_from(dir, edges[i], f) == Some(n));
    }
    if exists|i: int|
        0 <= i < edges.len() && edge_allowed(#[trigger] edges[i], preds) && step_from(
            dir,
            edges[i],
            f,
        ) == Some(n)
    {
        let i = choose|i: int|
            0 <= i < edges.len() && edge_allowed(#[trigger] edges[i], preds) && step_from(
                dir,
                edges[i],
                f,
            ) == Some(n);
        let e = edges[i];
        if dir != Direction::In && f.contains(e.source@) {
            assert(adjacent(dir, e, e.source@, n));
            assert(hop(edges, dir, preds, e.source@, n));
        } else {
            assert(adjacent(dir, e, e.target@, n));
            assert(hop(edges, dir, preds, e.target@, n));
        }
    }
}

/// Walking from a set is walking from either part of it.
proof fn lemma_discovers_union(dir: Direction, e: GraphEdge, a: Set<Seq<char>>, b: Set<Seq<char>>)
    ensures
        discovers(dir, e, a.union(b)) == (discovers(dir, e, a) || discovers(dir, e, b)),
{
}

/// The nodes within `k` hops are those within `k - 1` hops and the frontier.
proof fn lemma_within_split(
    edges: Seq<GraphEdge>,
    dir: Direction,
    preds: Option<Seq<Seq<char>>>,
    start: Seq<char>,
    k: nat,
)
    requires
        k > 0,
    ensures
        within(edges, dir, preds, start, k) == within(edges, dir, preds, start, (k - 1) as nat).union(
            frontier_set(edges, dir, preds, start, k),
        ),
{
    lemma_within_monotone(edges, dir, preds, start, (k - 1) as nat, k);
    assert(within(edges, dir, preds, start, k) =~= within(
        edges,
        dir,
        preds,
        start,
        (k - 1) as nat,
    ).union(frontier_set(edges, dir, preds, start, k)));
}

/// The strings of a vector, as a set.
pub open spec fn as_set(v: Seq<String>) -> Set<Seq<char>> {
    Set::new(|n: Seq<char>| views(v).contains(n))
}

/// Some admitted edge among the first `j` rows steps from the frontier `f` to `n`.
pub open spec fn reached(
    edges: Seq<GraphEdge>,
    dir: Direction,
    preds: Option<Seq<Seq<char>>>,
    f: Set<Seq<char>>,
    j: int,
    n: Seq<char>,
) -> bool {
    exists|k: int|
        0 <= k < j && edge_allowed(#[trigger] edges[k], preds) && step_from(dir, edges[k], f) == Some(
            n,
        )
}

proof fn lemma_reached_step(
    edges: Seq<GraphEdge>,
    dir: Direction,
    preds: Option<Seq<Seq<char>>>,
    f: Set<Seq<char>>,
    j: int,
    n: Seq<char>,
)
    requires
        0 <= j < edges.len(),
    ensures
        reached(edges, dir, preds, f, j + 1, n) == (reached(edges, dir, preds, f, j, n) || (
        edge_allowed(edges[j], preds) && step_from(dir, edges[j], f) == Some(n))),
{
    if reached(edges, dir, preds, f, j + 1, n) {
        let k = choose|k: int|
            0 <= k < j + 1 && edge_allowed(#[trigger] edges[k], preds) && step_from(
                dir,
                edges[k],
                f,
            ) == Some(n);
        if k < j {
            assert(reached(edges, dir, preds, f, j, n));
        }
    }
    if reached(edges, dir, preds, f, j, n) {
        let k = choose|k: int|
            0 <= k < j && edge_allowed(#[trigger] edges[k], preds) && step_from(dir, edges[k], f)
                == Some(n);
        assert(0 <= k < j + 1);
    }
    if edge_allowed(edges[j], preds) && step_from(dir, edges[j], f) == Some(n) {
        assert(0 <= j < j + 1);
    }
}

/// Whether the predicate filter admits the edge.
fn admitted(e: &GraphEdge, predicates: Option<&Vec<String>>) -> (res: bool)
    ensures
        res == edge_allowed(*e, preds_view(predicates)),
{
    match predicates {
        None => true,
        Some(p) => list_contains(p, e.predicate.as_str()),
    }
}

/// Appends `s` to `v` unless it is already there.
fn push_new(v: &mut Vec<String>, s: &String)
    requires
        views(old(v)@).no_duplicates(),
    ensures
        views(final(v)@).no_duplicates(),
        forall|n: Seq<char>| views(final(v)@).contains(n) <==> (views(old(v)@).contains(n) || n == s@),
{
    let ghost before = v@;
    if !list_contains(v, s.as_str()) {
        v.push(s.clone());
        assert(views(v@) =~= views(before).push(s@));
        assert forall|n: Seq<char>| views(v@).contains(n) <==> (views(before).contains(n) || n == s@) by {
            if views(v@).contains(n) && n != s@ {
                let k = choose|k: int| 0 <= k < views(v@).len() && views(v@)[k] == n;
                assert(views(before)[k] == n);
            }
            if views(before).contains(n) {
                let k = choose|k: int| 0 <= k < views(before).len() && views(before)[k] == n;
                assert(views(v@)[k] == n);
            }
            if n == s@ {
                assert(views(v@)[views(before).len() as int] == n);
            }
        }
    }
}

/// One level of the neighborhood search: marks the rows walked from the
/// frontier and returns the unvisited nodes they lead to.
#[verifier::spinoff_prover]
fn scan_level(
    edges: &Vec<GraphEdge>,
    direction: Direction,
    predicates: Option<&Vec<String>>,
    frontier: &Vec<String>,
    visited: &Vec<String>,
    selected_in: Vec<bool>,
) -> (out: (Vec<String>, Vec<bool>))
    requires
        selected_in@.len() == edges@.len(),
    ensures
        out.1@.len() == edges@.len(),
        forall|k: int|
            0 <= k < edges@.len() ==> (#[trigger] out.1@[k] <==> (selected_in@[k] || (
            edge_allowed(edges@[k], preds_view(predicates)) && discovers(
                direction,
                edges@[k],
                as_set(frontier@),
            )))),
        views(out.0@).no_duplicates(),
        forall|n: Seq<char>|
            views(out.0@).contains(n) <==> (!views(visited@).contains(n) && reached(
                edges@,
                direction,
                preds_view(predicates),
                as_set(frontier@),
                edges@.len() as int,
                n,
            )),
{
    let ghost es = edges@;
    let ghost pv = preds_view(predicates);
    let ghost f = as_set(frontier@);
    let ghost w = as_set(visited@);
    let ghost old_selected = selected_in@;
    let mut selected = selected_in;
    let mut next: Vec<String> = Vec::new();
    let mut j: usize = 0;
    while j < edges.len()
        invariant
            es == edges@,
            pv == preds_view(predicates),
            f == as_set(frontier@),
            w == as_set(visited@),
            j <= edges.len(),
            selected@.len() == edges@.len(),
            old_selected.len() == edges@.len(),
            views(next@).no_duplicates(),
            forall|n: Seq<char>|
                #[trigger] views(next@).contains(n) <==> (!w.contains(n) && reached(es, direction, pv, f, j as int, n)),
            forall|k: int|
                0 <= k < j ==> (#[trigger] selected@[k] <==> (old_selected[k] || (edge_allowed(es[k], pv)
                    && discovers(direction, es[k], f)))),
            forall|k: int| j <= k < es.len() ==> selected@[k] == old_selected[k],
        decreases edges.len() - j,
    {
        assert(forall|k: int| 0 <= k < j ==> (#[trigger] selected@[k] <==> (old_selected[k] || (edge_allowed(es[k], pv)
                    && discovers(direction, es[k], f)))));
        let e = &edges[j];
        let mut neighbor: Option<&String> = None;
        if admitted(e, predicates) {
            if direction != Direction::In && list_contains(frontier, e.source.as_str()) {
                neighbor = Some(&e.target);
            } else if direction != Direction::Out && list_contains(frontier, e.target.as_str()) {
                neighbor = Some(&e.source);
            }
        }
        assert(neighbor.is_some() == (edge_allowed(es[j as int], pv) && discovers(direction, es[j as int], f)));
        assert(neighbor.is_some() ==> step_from(direction, es[j as int], f) == Some(neighbor->0@));
        assert(neighbor.is_none() ==> !(edge_allowed(es[j as int], pv) && step_from(direction, es[j as int], f) is Some));
        let ghost before = next@;
        assert(forall|k: int| 0 <= k < j ==> (#[trigger] selected@[k] <==> (old_selected[k] || (edge_allowed(es[k], pv)
                    && discovers(direction, es[k], f)))));
        if let Some(nb) = neighbor {
            selected.set(j, true);
            if !list_contains(visited, nb.as_str()) {
                push_new(&mut next, nb);
            }
        }
        proof {
            assert(selected@[j as int] <==> (old_selected[j as int] || (edge_allowed(es[j as int], pv)
                    && discovers(direction, es[j as int], f))));
            assert forall|n: Seq<char>|
                views(next@).contains(n) <==> (!w.contains(n) && reached(es, direction, pv, f, j + 1, n)) by {
                lemma_reached_step(es, direction, pv, f, j as int, n);
                if let Some(nb) = neighbor {
                    if n == nb@ {
                        assert(reached(es, direction, pv, f, j + 1, n));
                    }
                }
            }
        }
        j = j + 1;
    }
    (next, selected)
}

/// Appends every string of `extra` to `v`.
fn append_strings(v: &mut Vec<String>, extra: &Vec<String>)
    ensures
        views(final(v)@) == views(old(v)@) + views(extra@),
{
    let ghost before = v@;
    let mut m: usize = 0;
    while m < extra.len()
        invariant
            m <= extra.len(),
            views(v@) == views(before) + views(extra@).take(m as int),
        decreases extra.len() - m,
    {
        let ghost prev = v@;
        v.push(extra[m].clone());
        assert(views(v@) =~= views(prev).push(extra@[m as int]@));
        assert(views(extra@).take(m + 1) =~= views(extra@).take(m as int).push(extra@[m as int]@));
        m = m + 1;
    }
    assert(views(extra@).take(extra.len() as int) =~= views(extra@));
}

proof fn lemma_concat_no_dup(a: Seq<Seq<char>>, b: Seq<Seq<char>>)
    requires
        a.no_duplicates(),
        b.no_duplicates(),
        forall|n: Seq<char>| a.contains(n) ==> !b.contains(n),
    ensures
        (a + b).no_duplicates(),
        forall|n: Seq<char>| (a + b).contains(n) <==> (a.contains(n) || b.contains(n)),
{
    let c = a + b;
    assert forall|x: int, y: int| 0 <= x < y < c.len() implies c[x] != c[y] by {
        if y < a.len() {
        } else if x >= a.len() {
            assert(c[x] == b[x - a.len()]);
            assert(c[y] == b[y - a.len()]);
        } else {
            assert(a.contains(c[x]));
            assert(c[y] == b[y - a.len()]);
        }
    }
    assert forall|n: Seq<char>| c.contains(n) <==> (a.contains(n) || b.contains(n)) by {
        if c.contains(n) {
            let k = choose|k: int| 0 <= k < c.len() && c[k] == n;
            if k >= a.len() {
                assert(b[k - a.len()] == n);
            }
        }
        if a.contains(n) {
            let k = choose|k: int| 0 <= k < a.len() && a[k] == n;
            assert(c[k] == n);
        }
        if b.contains(n) {
            let k = choose|k: int| 0 <= k < b.len() && b[k] == n;
            assert(c[k + a.len()] == n);
        }
    }
}

/// The positions whose flag is set, in increasing order.
fn positions(flags: &Vec<bool>) -> (out: Vec<usize>)
    ensures
        forall|a: int, b: int| 0 <= a < b < out@.len() ==> out@[a] < out@[b],
        forall|k: int| 0 <= k < out@.len() ==> out@[k] < flags@.len(),
        forall|k: int| 0 <= k < flags@.len() ==> (out@.contains(k as usize) <==> flags@[k]),
{
    let mut out: Vec<usize> = Vec::new();
    let mut j: usize = 0;
    while j < flags.len()
        invariant
            j <= flags.len(),
            forall|a: int, b: int| 0 <= a < b < out@.len() ==> out@[a] < out@[b],
            forall|k: int| 0 <= k < out@.len() ==> out@[k] < j,
            forall|k: int| 0 <= k < j ==> (out@.contains(k as usize) <==> flags@[k]),
        decreases flags.len() - j,
    {
        let ghost before = out@;
        if flags[j] {
            out.push(j);
            assert forall|u: usize| u != j implies (#[trigger] out@.contains(u) == before.contains(u)) by {
                if out@.contains(u) {
                    let p = choose|p: int| 0 <= p < out@.len() && out@[p] == u;
                    assert(before[p] == u);
                }
                if before.contains(u) {
                    let p = choose|p: int| 0 <= p < before.len() && before[p] == u;
                    assert(out@[p] == u);
                }
            }
            assert(out@[before.len() as int] == j);
        }
        j = j + 1;
    }
    out
}

/// Marks every admitted row whose endpoints are both visited.
#[verifier::spinoff_prover]
fn complete_induced(
    edges: &Vec<GraphEdge>,
    predicates: Option<&Vec<String>>,
    visited: &Vec<String>,
    selected_in: Vec<bool>,
) -> (selected_out: Vec<bool>)
    requires
        selected_in@.len() == edges@.len(),
    ensures
        selected_out@.len() == edges@.len(),
        forall|k: int|
            0 <= k < edges@.len() ==> (#[trigger] selected_out@[k] <==> (selected_in@[k] || (
            edge_allowed(edges@[k], preds_view(predicates)) && views(visited@).contains(
                edges@[k].source@,
            ) && views(visited@).contains(edges@[k].target@)))),
{
    let ghost before = selected_in@;
    let mut selected = selected_in;
    let mut j: usize = 0;
    while j < edges.len()
        invariant
            j <= edges.len(),
            selected@.len() == edges@.len(),
            before.len() == edges@.len(),
            forall|k: int|
                0 <= k < j ==> (#[trigger] selected@[k] <==> (before[k] || (edge_allowed(
                    edges@[k],
                    preds_view(predicates),
                ) && views(visited@).contains(edges@[k].source@) && views(visited@).contains(
                    edges@[k].target@,
                )))),
            forall|k: int| j <= k < edges@.len() ==> selected@[k] == before[k],
        decreases edges.len() - j,
    {
        let e = &edges[j];
        if admitted(e, predicates) && list_contains(visited, e.source.as_str()) && list_contains(
            visited,
            e.target.as_str(),
        ) {
            selected.set(j, true);
        }
        j = j + 1;
    }
    selected
}

/// A vector holding one string.
fn singleton(s: &str) -> (out: Vec<String>)
    ensures
        views(out@).no_duplicates(),
        forall|n: Seq<char>| views(out@).contains(n) <==> n == s@,
{
    let mut out: Vec<String> = Vec::new();
    out.push(s.to_owned());
    assert(views(out@) =~= seq![s@]);
    assert(views(out@)[0] == s@);
    out
}

/// The nodes within `depth` hops of `start`, and the edges of that
/// neighborhood. For an undirected neighborhood the edges are the induced edge
/// set: every admitted edge between two returned nodes.
#[verifier::spinoff_prover]
pub fn traverse(
    edges: &Vec<GraphEdge>,
    start: &str,
    depth: usize,
    direction: Direction,
    predicates: Option<&Vec<String>>,
) -> (out: Neighborhood)
    ensures
        views(out.nodes@).no_duplicates(),
        forall|n: Seq<char>|
            views(out.nodes@).contains(n) <==> within(
                edges@,
                direction,
                preds_view(predicates),
                start@,
                depth as nat,
            ).contains(n),
        forall|a: int, b: int| 0 <= a < b < out.edges@.len() ==> out.edges@[a] < out.edges@[b],
        forall|k: int| 0 <= k < out.edges@.len() ==> out.edges@[k] < edges@.len(),
        forall|i: int|
            0 <= i < edges@.len() ==> (out.edges@.contains(i as usize) <==> neighborhood_edge(
                edges@,
                direction,
                preds_view(predicates),
                start@,
                depth as nat,
                #[trigger] edges@[i],
            )),
{
    let ghost es = edges@;
    let ghost pv = preds_view(predicates);
    let ghost s = start@;
    let mut visited = singleton(start);
    let mut frontier = singleton(start);
    let mut selected: Vec<bool> = Vec::new();
    let mut i: usize = 0;
    while i < edges.len()
        invariant
            i <= edges.len(),
            selected@.len() == i,
            forall|k: int| 0 <= k < i ==> !selected@[k],
        decreases edges.len() - i,
    {
        selected.push(false);
        i = i + 1;
    }
    let mut level: usize = 0;
    while level < depth && frontier.len() > 0
        invariant
            es == edges@,
            pv == preds_view(predicates),
            s == start@,
            level <= depth,
            selected@.len() == edges@.len(),
            views(visited@).no_duplicates(),
            views(frontier@).no_duplicates(),
            as_set(visited@) == within(es, direction, pv, s, level as nat),
            as_set(frontier@) == frontier_set(es, direction, pv, s, level as nat),
            forall|k: int|
                0 <= k < es.len() ==> (#[trigger] selected@[k] <==> (edge_allowed(es[k], pv) && level > 0
                    && discovers(direction, es[k], within(es, direction, pv, s, (level - 1) as nat)))),
        decreases depth - level,
    {
        let ghost f = frontier_set(es, direction, pv, s, level as nat);
        let ghost w = within(es, direction, pv, s, level as nat);
        let ghost old_selected = selected@;
        let (next, sel) = scan_level(edges, direction, predicates, &frontier, &visited, selected);
        selected = sel;
        let ghost old_visited = visited@;
        append_strings(&mut visited, &next);
        proof {
            let w1 = within(es, direction, pv, s, (level + 1) as nat);
            let f1 = frontier_set(es, direction, pv, s, (level + 1) as nat);
            lemma_within_monotone(es, direction, pv, s, level as nat, (level + 1) as nat);
            assert forall|n: Seq<char>| views(next@).contains(n) <==> f1.contains(n) by {
                lemma_level_step(es, direction, pv, s, level as nat, n);
                assert(views(old_visited).contains(n) == w.contains(n));
                if reached(es, direction, pv, f, es.len() as int, n) {
                    let k = choose|k: int| 0 <= k < es.len() && edge_allowed(#[trigger] es[k], pv) && step_from(direction, es[k], f) == Some(n);
                }
            }
            assert forall|n: Seq<char>| views(old_visited).contains(n) implies !views(next@).contains(n) by {
                assert(w.contains(n));
            }
            lemma_concat_no_dup(views(old_visited), views(next@));
            assert(as_set(visited@) =~= w1) by {
                assert forall|n: Seq<char>| as_set(visited@).contains(n) <==> w1.contains(n) by {
                    assert(views(old_visited).contains(n) == w.contains(n));
                    assert(views(next@).contains(n) == f1.contains(n));
                }
            }
            assert(as_set(next@) =~= f1);
            assert forall|k: int| 0 <= k < es.len() implies (selected@[k] <==> (edge_allowed(es[k], pv)
                && discovers(direction, es[k], w))) by {
                if level > 0 {
                    lemma_within_split(es, direction, pv, s, level as nat);
                    lemma_discovers_union(direction, es[k], within(es, direction, pv, s, (level - 1) as nat), f);
                } else {
                    assert(f == w);
                }
            }
        }
        frontier = next;
        level = level + 1;
    }
    proof {
        if level < depth {
            // the frontier ran dry: the neighborhood stopped growing
            assert(level > 0) by {
                if level == 0 {
                    assert(frontier_set(es, direction, pv, s, 0).contains(s));
                    assert(as_set(frontier@).contains(s));
                }
            }
            lemma_within_monotone(es, direction, pv, s, (level - 1) as nat, level as nat);
            assert(within(es, direction, pv, s, level as nat) =~= within(es, direction, pv, s, (level - 1) as nat)) by {
                assert forall|n: Seq<char>| within(es, direction, pv, s, level as nat).contains(n) implies within(es, direction, pv, s, (level - 1) as nat).contains(n) by {
                    if !within(es, direction, pv, s, (level - 1) as nat).contains(n) {
                        assert(frontier_set(es, direction, pv, s, level as nat).contains(n));
                        assert(as_set(frontier@).contains(n));
                    }
                }
            }
            lemma_within_stable(es, direction, pv, s, (level - 1) as nat, depth as nat);
            lemma_within_stable(es, direction, pv, s, (level - 1) as nat, (depth - 1) as nat);
        }
        assert(as_set(visited@) == within(es, direction, pv, s, depth as nat));
    }
    if direction == Direction::Both {
        let ghost before = selected@;
        selected = complete_induced(edges, predicates, &visited, selected);
        proof {
            let wd = within(es, direction, pv, s, depth as nat);
            assert forall|k: int| 0 <= k < es.len() implies (selected@[k] <==> neighborhood_edge(es, direction, pv, s, depth as nat, es[k])) by {
                let e = es[k];
                assert(views(visited@).contains(e.source@) == wd.contains(e.source@));
                assert(views(visited@).contains(e.target@) == wd.contains(e.target@));
                if before[k] {
                    let wp = within(es, direction, pv, s, (depth - 1) as nat);
                    lemma_within_monotone(es, direction, pv, s, (depth - 1) as nat, depth as nat);
                    if wp.contains(e.source@) {
                        assert(adjacent(direction, e, e.source@, e.target@));
                        assert(hop(es, direction, pv, e.source@, e.target@));
                    } else {
                        assert(adjacent(direction, e, e.target@, e.source@));
                        assert(hop(es, direction, pv, e.target@, e.source@));
                    }
                }
            }
        }
    }
    if direction != Direction::Both {
        proof {
            assert(level > 0 ==> within(es, direction, pv, s, (level - 1) as nat) == within(es, direction, pv, s, (depth - 1) as nat));
            assert(level == 0 ==> depth == 0) by {
                if level == 0 && depth > 0 {
                    assert(frontier_set(es, direction, pv, s, 0).contains(s));
                    assert(as_set(frontier@).contains(s));
                }
            }
            assert forall|k: int| 0 <= k < es.len() implies (#[trigger] selected@[k] <==> neighborhood_edge(es, direction, pv, s, depth as nat, es[k])) by {
            }
        }
    }
    let picked = positions(&selected);
    proof {
        assert forall|i: int| 0 <= i < edges@.len() implies (picked@.contains(i as usize) <==> neighborhood_edge(es, direction, pv, s, depth as nat, #[trigger] edges@[i])) by {
            assert(picked@.contains(i as usize) == selected@[i]);
        }
        assert forall|n: Seq<char>| views(visited@).contains(n) <==> within(es, direction, pv, s, depth as nat).contains(n) by {
            assert(as_set(visited@).contains(n) == views(visited@).contains(n));
        }
    }
    Neighborhood { nodes: visited, edges: picked }
}

/// A step of a walk: the node reached and the position of the edge row used.
pub type Step = (String, usize);

/// The view of a walk's steps.
pub open spec fn steps_view(p: Seq<Step>) -> Seq<(Seq<char>, int)> {
    p.map_values(|st: Step| (st.0@, st.1 as int))
}

/// The node a walk is at after its first `k` steps.
pub open spec fn walk_node(start: Seq<char>, path: Seq<(Seq<char>, int)>, k: int) -> Seq<char> {
    if k == 0 {
        start
    } else {
        path[k - 1].0
    }
}

/// The node a walk ends at.
pub open spec fn walk_end(start: Seq<char>, path: Seq<(Seq<char>, int)>) -> Seq<char> {
    walk_node(start, path, path.len() as int)
}

/// `path` is a walk from `start`: each step follows an edge row, in
/// direction `dir`, from the node the walk is at.
pub open spec fn is_walk(
    edges: Seq<GraphEdge>,
    dir: Direction,
    start: Seq<char>,
    path: Seq<(Seq<char>, int)>,
) -> bool {
    forall|k: int|
        0 <= k < path.len() ==> 0 <= (#[trigger] path[k]).1 < edges.len() && adjacent(
            dir,
            edges[path[k].1],
            walk_node(start, path, k),
            path[k].0,
        )
}

/// The nodes within `k` hops along any edge.
pub open spec fn reach(edges: Seq<GraphEdge>, dir: Direction, start: Seq<char>, k: nat) -> Set<
    Seq<char>,
> {
    within(edges, dir, None, start, k)
}

/// Extending a walk by one more edge row keeps it a walk.
pub proof fn lemma_walk_extend(
    edges: Seq<GraphEdge>,
    dir: Direction,
    start: Seq<char>,
    path: Seq<(Seq<char>, int)>,
    step: (Seq<char>, int),
)
    requires
        is_walk(edges, dir, start, path),
        0 <= step.1 < edges.len(),
        adjacent(dir, edges[step.1], walk_end(start, path), step.0),
    ensures
        is_walk(edges, dir, start, path.push(step)),
        walk_end(start, path.push(step)) == step.0,
{
    let q = path.push(step);
    assert forall|k: int| 0 <= k < q.len() implies 0 <= (#[trigger] q[k]).1 < edges.len() && adjacent(
        dir,
        edges[q[k].1],
        walk_node(start, q, k),
        q[k].0,
    ) by {
        if k < path.len() {
            assert(q[k] == path[k]);
            assert(0 <= path[k].1 < edges.len());
            if k > 0 {
                assert(q[k - 1] == path[k - 1]);
            }
        } else {
            if k > 0 {
                assert(q[k - 1] == path[k - 1]);
            }
        }
    }
}

/// A walk of `k` steps ends within `k` hops of its start.
pub proof fn lemma_walk_within(
    edges: Seq<GraphEdge>,
    dir: Direction,
    start: Seq<char>,
    path: Seq<(Seq<char>, int)>,
)
    requires
        is_walk(edges, dir, start, path),
    ensures
        reach(edges, dir, start, path.len()).contains(walk_end(start, path)),
    decreases path.len(),
{
    if path.len() > 0 {
        let prefix = path.drop_last();
        assert forall|k: int| 0 <= k < prefix.len() implies 0 <= (#[trigger] prefix[k]).1 < edges.len()
            && adjacent(dir, edges[prefix[k].1], walk_node(start, prefix, k), prefix[k].0) by {
            assert(prefix[k] == path[k]);
            assert(0 <= path[k].1 < edges.len());
            if k > 0 {
                assert(prefix[k - 1] == path[k - 1]);
            }
        }
        lemma_walk_within(edges, dir, start, prefix);
        let k = path.len() - 1;
        assert(0 <= path[k].1 < edges.len());
        let m = walk_end(start, prefix);
        if k > 0 {
            assert(prefix[k - 1] == path[k - 1]);
        }
        assert(m == walk_node(start, path, k));
        let i = path[k].1;
        assert(edge_allowed(edges[i], None));
        assert(hop(edges, dir, None, m, path[k].0));
    }
}

/// Every node within `k` hops ends a walk of at most `k` steps.
pub proof fn lemma_within_walk(
    edges: Seq<GraphEdge>,
    dir: Direction,
    start: Seq<char>,
    k: nat,
    n: Seq<char>,
)
    requires
        reach(edges, dir, start, k).contains(n),
    ensures
        exists|path: Seq<(Seq<char>, int)>|
            is_walk(edges, dir, start, path) && path.len() <= k && #[trigger] walk_end(start, path)
                == n,
    decreases k,
{
    if k == 0 {
        let path: Seq<(Seq<char>, int)> = seq![];
        assert(is_walk(edges, dir, start, path));
        assert(walk_end(start, path) == n);
    } else {
        let prev = reach(edges, dir, start, (k - 1) as nat);
        if prev.contains(n) {
            lemma_within_walk(edges, dir, start, (k - 1) as nat, n);
        } else {
            let m = choose|m: Seq<char>| prev.contains(m) && hop(edges, dir, None, m, n);
            lemma_within_walk(edges, dir, start, (k - 1) as nat, m);
            let p = choose|p: Seq<(Seq<char>, int)>|
                is_walk(edges, dir, start, p) && p.len() <= k - 1 && #[trigger] walk_end(start, p)
                    == m;
            let i = choose|i: int|
                0 <= i < edges.len() && edge_allowed(#[trigger] edges[i], None) && adjacent(
                    dir,
                    edges[i],
                    m,
                    n,
                );
            let step = (n, i);
            lemma_walk_extend(edges, dir, start, p, step);
            assert(walk_end(start, p.push(step)) == n);
        }
    }
}

/// No walk to `goal` is shorter than `len` steps when `goal` is not within
/// `len - 1` hops.
pub proof fn lemma_no_shorter_walk(
    edges: Seq<GraphEdge>,
    dir: Direction,
    start: Seq<char>,
    goal: Seq<char>,
    len: nat,
    other: Seq<(Seq<char>, int)>,
)
    requires
        len > 0,
        !reach(edges, dir, start, (len - 1) as nat).contains(goal),
        is_walk(edges, dir, start, other),
        walk_end(start, other) == goal,
    ensures
        other.len() >= len,
{
    lemma_walk_within(edges, dir, start, other);
    if other.len() < len {
        lemma_within_monotone(edges, dir, None, start, other.len(), (len - 1) as nat);
    }
}

/// The edge rows a walk follows, in order.
pub open spec fn walk_rows(path: Seq<(Seq<char>, int)>) -> Seq<int> {
    path.map_values(|st: (Seq<char>, int)| st.1)
}

/// Row order on walks: at the first step where `a` and `b` follow different
/// rows, `a` follows the earlier row.
pub open spec fn rows_before(a: Seq<int>, b: Seq<int>) -> bool
    decreases a.len(),
{
    if a.len() == 0 || b.len() == 0 {
        false
    } else if a[0] != b[0] {
        a[0] < b[0]
    } else {
        rows_before(a.drop_first(), b.drop_first())
    }
}

/// `a` comes before `b` in row order, or is `b`.
pub open spec fn rows_le(a: Seq<int>, b: Seq<int>) -> bool {
    rows_before(a, b) || a == b
}

proof fn lemma_rows_irreflexive(a: Seq<int>)
    ensures
        !rows_before(a, a),
    decreases a.len(),
{
    if a.len() > 0 {
        lemma_rows_irreflexive(a.drop_first());
    }
}

proof fn lemma_rows_transitive(a: Seq<int>, b: Seq<int>, c: Seq<int>)
    requires
        rows_before(a, b),
        rows_before(b, c),
    ensures
        rows_before(a, c),
    decreases a.len(),
{
    if a[0] == b[0] && b[0] == c[0] {
        lemma_rows_transitive(a.drop_first(), b.drop_first(), c.drop_first());
    }
}

proof fn lemma_rows_asymmetric(a: Seq<int>, b: Seq<int>)
    requires
        rows_before(a, b),
    ensures
        !rows_before(b, a),
{
    if rows_before(b, a) {
        lemma_rows_transitive(a, b, a);
        lemma_rows_irreflexive(a);
    }
}

proof fn lemma_rows_total(a: Seq<int>, b: Seq<int>)
    requires
        a.len() == b.len(),
    ensures
        rows_le(a, b) || rows_before(b, a),
    decreases a.len(),
{
    if a.len() == 0 {
        assert(a =~= b);
    } else if a[0] == b[0] {
        lemma_rows_total(a.drop_first(), b.drop_first());
        if a.drop_first() == b.drop_first() {
            assert(a =~= b) by {
                assert forall|k: int| 0 <= k < a.len() implies a[k] == b[k] by {
                    if k > 0 {
                        assert(a[k] == a.drop_first()[k - 1]);
                        assert(b[k] == b.drop_first()[k - 1]);
                    }
                }
            }
        }
    }
}

/// Row order on walks one step longer: the earlier prefix comes first, and of
/// equal prefixes the earlier last row.
proof fn lemma_rows_push(a: Seq<int>, b: Seq<int>, x: int, y: int)
    requires
        a.len() == b.len(),
    ensures
        rows_before(a.push(x), b.push(y)) == (rows_before(a, b) || (a == b && x < y)),
    decreases a.len(),
{
    if a.len() == 0 {
        assert(a =~= b);
        assert(a.push(x).drop_first() =~= Seq::<int>::empty());
        assert(b.push(y).drop_first() =~= Seq::<int>::empty());
        assert(!rows_before(Seq::<int>::empty(), Seq::<int>::empty()));
        assert(a.push(x)[0] == x && b.push(y)[0] == y);
    } else {
        assert(a.push(x).drop_first() =~= a.drop_first().push(x));
        assert(b.push(y).drop_first() =~= b.drop_first().push(y));
        assert(a.push(x)[0] == a[0] && b.push(y)[0] == b[0]);
        lemma_rows_push(a.drop_first(), b.drop_first(), x, y);
        if a[0] == b[0] && a.drop_first() == b.drop_first() {
            assert(a =~= b) by {
                assert forall|k: int| 0 <= k < a.len() implies a[k] == b[k] by {
                    if k > 0 {
                        assert(a[k] == a.drop_first()[k - 1]);
                        assert(b[k] == b.drop_first()[k - 1]);
                    }
                }
            }
        }
        if a == b {
            assert(a.drop_first() == b.drop_first());
        }
    }
}

/// `rows_le` chains with itself and with `rows_before`.
proof fn lemma_rows_le_chain(a: Seq<int>, b: Seq<int>, c: Seq<int>)
    ensures
        rows_le(a, b) && rows_le(b, c) ==> rows_le(a, c),
        rows_le(a, b) && rows_before(b, c) ==> rows_before(a, c),
        rows_before(a, b) && rows_le(b, c) ==> rows_before(a, c),
        rows_le(a, b) ==> !rows_before(b, a),
{
    if rows_before(a, b) && rows_before(b, c) {
        lemma_rows_transitive(a, b, c);
    }
    if rows_before(a, b) {
        lemma_rows_asymmetric(a, b);
    }
    if a == b {
        lemma_rows_irreflexive(a);
    }
}

/// The rows of a walk one step longer.
proof fn lemma_walk_rows_push(p: Seq<(Seq<char>, int)>, st: (Seq<char>, int))
    ensures
        walk_rows(p.push(st)) == walk_rows(p).push(st.1),
        walk_rows(p).len() == p.len(),
{
    assert(walk_rows(p.push(st)) =~= walk_rows(p).push(st.1));
}

/// Following a row from a node leads to one node at most.
proof fn lemma_adjacent_unique(dir: Direction, e: GraphEdge, from: Seq<char>, t1: Seq<char>, t2: Seq<char>)
    requires
        adjacent(dir, e, from, t1),
        adjacent(dir, e, from, t2),
    ensures
        t1 == t2,
{
}

/// Two walks from one node that follow the same rows pass the same nodes.
proof fn lemma_walks_agree(
    edges: Seq<GraphEdge>,
    dir: Direction,
    start: Seq<char>,
    a: Seq<(Seq<char>, int)>,
    b: Seq<(Seq<char>, int)>,
    n: int,
)
    requires
        is_walk(edges, dir, start, a),
        is_walk(edges, dir, start, b),
        walk_rows(a) == walk_rows(b),
        0 <= n <= a.len(),
    ensures
        walk_node(start, a, n) == walk_node(start, b, n),
    decreases n,
{
    if n > 0 {
        assert(walk_rows(a).len() == a.len() && walk_rows(b).len() == b.len());
        lemma_walks_agree(edges, dir, start, a, b, n - 1);
        assert(walk_rows(a)[n - 1] == a[n - 1].1);
        assert(walk_rows(b)[n - 1] == b[n - 1].1);
        lemma_adjacent_unique(dir, edges[a[n - 1].1], walk_node(start, a, n - 1), a[n - 1].0, b[n - 1].0);
    }
}

/// A walk without its last step is a walk to the node before the end, and
/// the last step follows a row from there.
proof fn lemma_walk_split(
    edges: Seq<GraphEdge>,
    dir: Direction,
    start: Seq<char>,
    path: Seq<(Seq<char>, int)>,
)
    requires
        is_walk(edges, dir, start, path),
        path.len() > 0,
    ensures
        is_walk(edges, dir, start, path.drop_last()),
        path == path.drop_last().push(path.last()),
        0 <= path.last().1 < edges.len(),
        adjacent(dir, edges[path.last().1], walk_end(start, path.drop_last()), walk_end(start, path)),
        walk_rows(path) == walk_rows(path.drop_last()).push(path.last().1),
{
    let prefix = path.drop_last();
    assert forall|k: int| 0 <= k < prefix.len() implies 0 <= (#[trigger] prefix[k]).1 < edges.len()
        && adjacent(dir, edges[prefix[k].1], walk_node(start, prefix, k), prefix[k].0) by {
        assert(prefix[k] == path[k]);
        assert(0 <= path[k].1 < edges.len());
        if k > 0 {
            assert(prefix[k - 1] == path[k - 1]);
        }
    }
    assert(path =~= prefix.push(path.last()));
    let k = path.len() - 1;
    assert(0 <= path[k].1 < edges.len());
    if k > 0 {
        assert(prefix[k - 1] == path[k - 1]);
    }
    lemma_walk_rows_push(prefix, path.last());
}

proof fn lemma_push_contains(a: Seq<String>, x: String, n: Seq<char>)
    ensures
        views(a.push(x)).contains(n) == (views(a).contains(n) || n == x@),
{
    let b = a.push(x);
    assert(views(b) =~= views(a).push(x@));
    if views(a).contains(n) {
        let k = choose|k: int| 0 <= k < views(a).len() && views(a)[k] == n;
        assert(views(b)[k] == n);
    }
    if n == x@ {
        assert(views(b)[a.len() as int] == n);
    }
    if views(b).contains(n) && n != x@ {
        let k = choose|k: int| 0 <= k < views(b).len() && views(b)[k] == n;
        assert(views(a)[k] == n);
    }
}

/// A copy of a walk.
fn clone_steps(p: &Vec<Step>) -> (out: Vec<Step>)
    ensures
        out@ == p@,
{
    let mut out: Vec<Step> = Vec::new();
    let mut i: usize = 0;
    while i < p.len()
        invariant
            i <= p.len(),
            out@ == p@.take(i as int),
        decreases p.len() - i,
    {
        out.push((p[i].0.clone(), p[i].1));
        assert(p@.take(i as int).push(p@[i as int]) =~= p@.take(i + 1));
        i = i + 1;
    }
    assert(p@.take(p.len() as int) =~= p@);
    out
}

/// The node of each search entry.
pub open spec fn entry_nodes(v: Seq<(String, Vec<Step>)>) -> Seq<Seq<char>> {
    v.map_values(|e: (String, Vec<Step>)| e.0@)
}

/// Search entries for the level after `level`: walks of `level + 1` steps to
/// nodes not within `level` hops, none of them the goal.
spec fn good_entries(
    edges: Seq<GraphEdge>,
    dir: Direction,
    start: Seq<char>,
    level: nat,
    goal: Seq<char>,
    next: Seq<(String, Vec<Step>)>,
) -> bool {
    &&& entry_nodes(next).no_duplicates()
    &&& forall|k: int|
        0 <= k < next.len() ==> {
            &&& is_walk(edges, dir, start, steps_view((#[trigger] next[k]).1@))
            &&& next[k].1@.len() == level + 1
            &&& walk_end(start, steps_view(next[k].1@)) == next[k].0@
            &&& !reach(edges, dir, start, level).contains(next[k].0@)
            &&& next[k].0@ != goal
        }
}

/// A walk of `level + 1` steps to a node farther than `level` hops takes its
/// last step from a node exactly `level` hops away.
proof fn lemma_last_step_from_frontier(
    edges: Seq<GraphEdge>,
    dir: Direction,
    start: Seq<char>,
    level: nat,
    path: Seq<(Seq<char>, int)>,
)
    requires
        is_walk(edges, dir, start, path),
        path.len() == level + 1,
        !reach(edges, dir, start, level).contains(walk_end(start, path)),
    ensures
        frontier_set(edges, dir, None, start, level).contains(walk_end(start, path.drop_last())),
        is_walk(edges, dir, start, path.drop_last()),
        0 <= path.last().1 < edges.len(),
        adjacent(dir, edges[path.last().1], walk_end(start, path.drop_last()), walk_end(start, path)),
        walk_rows(path) == walk_rows(path.drop_last()).push(path.last().1),
        walk_rows(path.drop_last()).len() == level,
{
    lemma_walk_split(edges, dir, start, path);
    let prefix = path.drop_last();
    lemma_walk_within(edges, dir, start, prefix);
    let m = walk_end(start, prefix);
    let n = walk_end(start, path);
    let r = path.last().1;
    assert(walk_rows(prefix).len() == prefix.len());
    if level > 0 {
        let prev = reach(edges, dir, start, (level - 1) as nat);
        if prev.contains(m) {
            assert(edge_allowed(edges[r], None));
            assert(hop(edges, dir, None, m, n));
            assert(reach(edges, dir, start, level).contains(n));
        }
    }
}

/// The rows of a search entry's walk.
pub open spec fn entry_rows(e: (String, Vec<Step>)) -> Seq<int> {
    walk_rows(steps_view(e.1@))
}

/// The entries come in strictly increasing row order.
pub open spec fn rows_sorted(v: Seq<(String, Vec<Step>)>) -> bool {
    forall|a: int, b: int|
        0 <= a < b < v.len() ==> rows_before(entry_rows(#[trigger] v[a]), entry_rows(#[trigger] v[b]))
}

/// Visits the nodes one step from `cur`, in edge-row order (for each row,
/// along it before against it). Returns the walk to `goal` when it is reached.
#[verifier::spinoff_prover]
fn expand(
    edges: &Vec<GraphEdge>,
    direction: Direction,
    cur: &String,
    path: &Vec<Step>,
    goal: &str,
    visited_in: Vec<String>,
    next_in: Vec<(String, Vec<Step>)>,
    Ghost(start): Ghost<Seq<char>>,
    Ghost(level): Ghost<nat>,
) -> (out: Result<(Vec<String>, Vec<(String, Vec<Step>)>), Vec<Step>>)
    requires
        is_walk(edges@, direction, start, steps_view(path@)),
        path@.len() == level,
        walk_end(start, steps_view(path@)) == cur@,
        reach(edges@, direction, start, level).contains(cur@),
        !reach(edges@, direction, start, level).contains(goal@),
        views(visited_in@).no_duplicates(),
        forall|n: Seq<char>| #[trigger] views(visited_in@).contains(n) <==> (reach(edges@, direction, start, level).contains(n) || entry_nodes(next_in@).contains(n)),
        good_entries(edges@, direction, start, level, goal@, next_in@),
        rows_sorted(next_in@),
        forall|k: int|
            0 <= k < next_in@.len() ==> rows_before(
                entry_rows(#[trigger] next_in@[k]).drop_last(),
                walk_rows(steps_view(path@)),
            ),
    ensures
        match out {
            Err(p) => {
                &&& is_walk(edges@, direction, start, steps_view(p@))
                &&& walk_end(start, steps_view(p@)) == goal@
                &&& p@.len() == level + 1
                &&& walk_rows(steps_view(p@)) == walk_rows(steps_view(path@)).push(p@[level as int].1 as int)
                &&& forall|r: int| 0 <= r < p@[level as int].1 ==> !adjacent(direction, #[trigger] edges@[r], cur@, goal@)
            },
            Ok((visited, next)) => {
                &&& views(visited@).no_duplicates()
                &&& forall|n: Seq<char>| #[trigger] views(visited@).contains(n) <==> (reach(edges@, direction, start, level).contains(n) || entry_nodes(next@).contains(n))
                &&& good_entries(edges@, direction, start, level, goal@, next@)
                &&& forall|n: Seq<char>| views(visited_in@).contains(n) ==> #[trigger] views(visited@).contains(n)
                &&& forall|i: int, n: Seq<char>| 0 <= i < edges@.len() && adjacent(direction, #[trigger] edges@[i], cur@, n) ==> #[trigger] views(visited@).contains(n)
                &&& rows_sorted(next@)
                &&& next_in@.len() <= next@.len()
                &&& forall|k: int| 0 <= k < next_in@.len() ==> #[trigger] next@[k] == next_in@[k]
                &&& forall|k: int| next_in@.len() <= k < next@.len() ==> !views(visited_in@).contains((#[trigger] next@[k]).0@)
                &&& forall|k: int| 0 <= k < next@.len() ==> rows_le(entry_rows(#[trigger] next@[k]).drop_last(), walk_rows(steps_view(path@)))
                &&& forall|k: int, r: int|
                    0 <= k < next@.len() && 0 <= r < edges@.len() && adjacent(direction, #[trigger] edges@[r], cur@, (#[trigger] next@[k]).0@)
                        ==> !rows_before(walk_rows(steps_view(path@)).push(r), entry_rows(next@[k]))
            },
        },
{
    let ghost es = edges@;
    let ghost w = reach(es, direction, start, level);
    let ghost vin = visited_in@;
    let ghost nin = next_in@;
    let ghost pr = walk_rows(steps_view(path@));
    let mut visited = visited_in;
    let mut next = next_in;
    let mut i: usize = 0;
    proof {
        assert(pr.len() == level);
        assert forall|k: int| 0 <= k < next@.len() implies rows_le(entry_rows(#[trigger] next@[k]), pr.push(0)) by {
            let q = entry_rows(next@[k]);
            assert(q.len() == level + 1);
            assert(q =~= q.drop_last().push(q.last()));
            lemma_rows_push(q.drop_last(), pr, q.last(), 0);
        }
    }
    while i < edges.len()
        invariant
            es == edges@,
            w == reach(es, direction, start, level),
            pr == walk_rows(steps_view(path@)),
            pr.len() == level,
            is_walk(es, direction, start, steps_view(path@)),
            path@.len() == level,
            walk_end(start, steps_view(path@)) == cur@,
            w.contains(cur@),
            !w.contains(goal@),
            i <= edges.len(),
            views(visited@).no_duplicates(),
            forall|n: Seq<char>| #[trigger] views(visited@).contains(n) <==> (w.contains(n) || entry_nodes(next@).contains(n)),
            good_entries(es, direction, start, level, goal@, next@),
            forall|n: Seq<char>| views(vin).contains(n) ==> #[trigger] views(visited@).contains(n),
            forall|k: int, n: Seq<char>| 0 <= k < i && adjacent(direction, #[trigger] es[k], cur@, n) ==> #[trigger] views(visited@).contains(n),
            rows_sorted(next@),
            nin.len() <= next@.len(),
            forall|k: int| 0 <= k < nin.len() ==> #[trigger] next@[k] == nin[k],
            forall|k: int| nin.len() <= k < next@.len() ==> !views(vin).contains((#[trigger] next@[k]).0@),
            forall|k: int| 0 <= k < next@.len() ==> rows_le(entry_rows(#[trigger] next@[k]), pr.push(i as int)),
            forall|k: int, r: int|
                0 <= k < next@.len() && 0 <= r < i && adjacent(direction, #[trigger] es[r], cur@, (#[trigger] next@[k]).0@)
                    ==> !rows_before(pr.push(r), entry_rows(next@[k])),
        decreases edges.len() - i,
    {
        let e = &edges[i];
        let mut round: usize = 0;
        while round < 2
            invariant
                es == edges@,
                w == reach(es, direction, start, level),
                pr == walk_rows(steps_view(path@)),
                pr.len() == level,
                is_walk(es, direction, start, steps_view(path@)),
                path@.len() == level,
                walk_end(start, steps_view(path@)) == cur@,
                w.contains(cur@),
                !w.contains(goal@),
                i < edges.len(),
                *e == es[i as int],
                round <= 2,
                views(visited@).no_duplicates(),
                forall|n: Seq<char>| #[trigger] views(visited@).contains(n) <==> (w.contains(n) || entry_nodes(next@).contains(n)),
                good_entries(es, direction, start, level, goal@, next@),
                forall|n: Seq<char>| views(vin).contains(n) ==> #[trigger] views(visited@).contains(n),
                forall|k: int, n: Seq<char>| 0 <= k < i && adjacent(direction, #[trigger] es[k], cur@, n) ==> #[trigger] views(visited@).contains(n),
                round >= 1 && direction != Direction::In && e.source@ == cur@ ==> views(visited@).contains(e.target@),
                round >= 2 && direction != Direction::Out && e.target@ == cur@ ==> views(visited@).contains(e.source@),
                rows_sorted(next@),
                nin.len() <= next@.len(),
                forall|k: int| 0 <= k < nin.len() ==> #[trigger] next@[k] == nin[k],
                forall|k: int| nin.len() <= k < next@.len() ==> !views(vin).contains((#[trigger] next@[k]).0@),
                forall|k: int| 0 <= k < next@.len() ==> rows_le(entry_rows(#[trigger] next@[k]), pr.push(i as int)),
                forall|k: int, r: int|
                    0 <= k < next@.len() && 0 <= r < i && adjacent(direction, #[trigger] es[r], cur@, (#[trigger] next@[k]).0@)
                        ==> !rows_before(pr.push(r), entry_rows(next@[k])),
            decreases 2 - round,
        {
            let candidate: Option<&String> = if round == 0 {
                if direction != Direction::In && e.source == *cur {
                    Some(&e.target)
                } else {
                    None
                }
            } else {
                if direction != Direction::Out && e.target == *cur {
                    Some(&e.source)
                } else {
                    None
                }
            };
            if let Some(nb) = candidate {
                assert(adjacent(direction, es[i as int], cur@, nb@));
                if !list_contains(&visited, nb.as_str()) {
                    let ghost before_v = visited@;
                    let ghost before_n = next@;
                    visited.push(nb.clone());
                    let mut np = clone_steps(path);
                    let step: Step = (nb.clone(), i);
                    proof {
                        lemma_walk_extend(es, direction, start, steps_view(path@), (nb@, i as int));
                        lemma_walk_within(es, direction, start, steps_view(path@).push((nb@, i as int)));
                        lemma_walk_rows_push(steps_view(path@), (nb@, i as int));
                    }
                    np.push(step);
                    assert(steps_view(np@) =~= steps_view(path@).push((nb@, i as int)));
                    if str_eq(nb.as_str(), goal) {
                        proof {
                            assert(np@[level as int].1 == i);
                            assert forall|r: int| 0 <= r < np@[level as int].1 implies !adjacent(direction, #[trigger] es[r], cur@, goal@) by {
                                if adjacent(direction, es[r], cur@, goal@) {
                                    assert(views(before_v).contains(goal@));
                                }
                            }
                        }
                        return Err(np);
                    }
                    next.push((nb.clone(), np));
                    proof {
                        let c = pr.push(i as int);
                        assert(entry_rows(next@[next@.len() - 1]) == c);
                        assert(views(visited@) =~= views(before_v).push(nb@));
                        assert(entry_nodes(next@) =~= entry_nodes(before_n).push(nb@));
                        assert forall|n: Seq<char>| #[trigger] views(visited@).contains(n) <==> (w.contains(n) || entry_nodes(next@).contains(n)) by {
                            if views(visited@).contains(n) && n != nb@ {
                                let k = choose|k: int| 0 <= k < views(visited@).len() && views(visited@)[k] == n;
                                assert(views(before_v)[k] == n);
                            }
                            if entry_nodes(next@).contains(n) && n != nb@ {
                                let k = choose|k: int| 0 <= k < entry_nodes(next@).len() && entry_nodes(next@)[k] == n;
                                assert(entry_nodes(before_n)[k] == n);
                            }
                            if views(before_v).contains(n) {
                                let k = choose|k: int| 0 <= k < views(before_v).len() && views(before_v)[k] == n;
                                assert(views(visited@)[k] == n);
                            }
                            if entry_nodes(before_n).contains(n) {
                                let k = choose|k: int| 0 <= k < entry_nodes(before_n).len() && entry_nodes(before_n)[k] == n;
                                assert(entry_nodes(next@)[k] == n);
                            }
                            if n == nb@ {
                                assert(views(visited@)[views(before_v).len() as int] == n);
                                assert(entry_nodes(next@)[entry_nodes(before_n).len() as int] == n);
                            }
                        }
                        assert(!w.contains(nb@));
                        assert(!entry_nodes(before_n).contains(nb@));
                        assert forall|k: int| 0 <= k < next@.len() implies {
                            &&& is_walk(es, direction, start, steps_view((#[trigger] next@[k]).1@))
                            &&& next@[k].1@.len() == level + 1
                            &&& walk_end(start, steps_view(next@[k].1@)) == next@[k].0@
                            &&& !reach(es, direction, start, level).contains(next@[k].0@)
                            &&& next@[k].0@ != goal@
                        } by {
                            if k < before_n.len() {
                                assert(next@[k] == before_n[k]);
                            }
                        }
                        lemma_push_contains(before_v, visited@[visited@.len() - 1], e.target@);
                        lemma_push_contains(before_v, visited@[visited@.len() - 1], e.source@);
                        assert forall|n: Seq<char>| views(vin).contains(n) implies #[trigger] views(visited@).contains(n) by {
                            assert(views(before_v).contains(n));
                            lemma_push_contains(before_v, visited@[visited@.len() - 1], n);
                        }
                        assert forall|k: int, n: Seq<char>| 0 <= k < i && adjacent(direction, #[trigger] es[k], cur@, n) implies #[trigger] views(visited@).contains(n) by {
                            assert(views(before_v).contains(n));
                            lemma_push_contains(before_v, visited@[visited@.len() - 1], n);
                        }
                        assert forall|a: int, b: int|
                            0 <= a < b < next@.len() implies rows_before(entry_rows(#[trigger] next@[a]), entry_rows(#[trigger] next@[b])) by {
                            if b < before_n.len() {
                                assert(next@[a] == before_n[a] && next@[b] == before_n[b]);
                            } else {
                                assert(next@[a] == before_n[a]);
                                let qa = steps_view(before_n[a].1@);
                                assert(rows_le(entry_rows(before_n[a]), c));
                                if entry_rows(before_n[a]) == c {
                                    lemma_walks_agree(es, direction, start, qa, steps_view(np@), (level + 1) as int);
                                    assert(entry_nodes(before_n)[a] == before_n[a].0@);
                                }
                            }
                        }
                        assert forall|k: int| nin.len() <= k < next@.len() implies !views(vin).contains((#[trigger] next@[k]).0@) by {
                            if k < before_n.len() {
                                assert(next@[k] == before_n[k]);
                            } else {
                                assert(!views(before_v).contains(nb@));
                            }
                        }
                        assert forall|k: int| 0 <= k < next@.len() implies rows_le(entry_rows(#[trigger] next@[k]), c) by {
                            if k < before_n.len() {
                                assert(next@[k] == before_n[k]);
                            }
                        }
                        assert forall|k: int, r: int|
                            0 <= k < next@.len() && 0 <= r < i && adjacent(direction, #[trigger] es[r], cur@, (#[trigger] next@[k]).0@)
                                implies !rows_before(pr.push(r), entry_rows(next@[k])) by {
                            if k < before_n.len() {
                                assert(next@[k] == before_n[k]);
                            } else {
                                assert(views(before_v).contains(nb@));
                            }
                        }
                    }
                }
            }
            round = round + 1;
        }
        proof {
            let c = pr.push(i as int);
            let c1 = pr.push(i + 1);
            lemma_rows_push(pr, pr, i as int, i + 1);
            assert forall|k: int| 0 <= k < next@.len() implies rows_le(entry_rows(#[trigger] next@[k]), c1) by {
                lemma_rows_le_chain(entry_rows(next@[k]), c, c1);
            }
            assert forall|k: int, r: int|
                0 <= k < next@.len() && 0 <= r < i + 1 && adjacent(direction, #[trigger] es[r], cur@, (#[trigger] next@[k]).0@)
                    implies !rows_before(pr.push(r), entry_rows(next@[k])) by {
                if r == i {
                    lemma_rows_le_chain(entry_rows(next@[k]), c, c);
                }
            }
        }
        i = i + 1;
    }
    proof {
        let c = pr.push(edges@.len() as int);
        assert forall|k: int| 0 <= k < next@.len() implies rows_le(entry_rows(#[trigger] next@[k]).drop_last(), pr) by {
            let q = entry_rows(next@[k]);
            assert(q.len() == level + 1);
            assert(q =~= q.drop_last().push(q.last()));
            lemma_rows_push(q.drop_last(), pr, q.last(), edges@.len() as int);
            if q == c {
                assert(q.drop_last() =~= pr);
            }
        }
    }
    Ok((visited, next))
}

/// A shortest walk from `start` to `goal` of at most `max_depth` steps, found
/// breadth first with the edge rows in order: of the shortest walks, the one
/// that comes first in row order. `None` when `goal` is not within
/// `max_depth` hops.
#[verifier::spinoff_prover]
pub fn shortest_path(
    edges: &Vec<GraphEdge>,
    start: &str,
    goal: &str,
    max_depth: usize,
    direction: Direction,
) -> (out: Option<Vec<Step>>)
    ensures
        match out {
            None => {
                &&& !reach(edges@, direction, start@, max_depth as nat).contains(goal@)
                &&& forall|other: Seq<(Seq<char>, int)>|
                    is_walk(edges@, direction, start@, other) && #[trigger] walk_end(start@, other) == goal@
                        ==> other.len() > max_depth
            },
            Some(p) => {
                &&& is_walk(edges@, direction, start@, steps_view(p@))
                &&& walk_end(start@, steps_view(p@)) == goal@
                &&& p@.len() <= max_depth
                &&& forall|other: Seq<(Seq<char>, int)>|
                    is_walk(edges@, direction, start@, other) && #[trigger] walk_end(start@, other) == goal@
                        ==> other.len() >= p@.len()
                &&& forall|other: Seq<(Seq<char>, int)>|
                    is_walk(edges@, direction, start@, other) && #[trigger] walk_end(start@, other) == goal@
                        && other.len() == p@.len() ==> !rows_before(walk_rows(other), walk_rows(steps_view(p@)))
            },
        },
{
    let ghost es = edges@;
    let ghost s = start@;
    if str_eq(start, goal) {
        let empty: Vec<Step> = Vec::new();
        assert(is_walk(es, direction, s, steps_view(empty@)));
        assert(walk_rows(steps_view(empty@)).len() == 0);
        return Some(empty);
    }
    let mut visited = singleton(start);
    let mut frontier: Vec<(String, Vec<Step>)> = Vec::new();
    frontier.push((start.to_owned(), Vec::new()));
    proof {
        assert(entry_nodes(frontier@) =~= seq![s]);
        assert(entry_nodes(frontier@)[0] == s);
        assert(is_walk(es, direction, s, steps_view(frontier@[0].1@)));
        assert(as_set(visited@) =~= reach(es, direction, s, 0));
        assert forall|n: Seq<char>| #[trigger] entry_nodes(frontier@).contains(n) <==> frontier_set(es, direction, None, s, 0).contains(n) by {
            if entry_nodes(frontier@).contains(n) {
                let k = choose|k: int| 0 <= k < entry_nodes(frontier@).len() && entry_nodes(frontier@)[k] == n;
            }
        }
        assert forall|k: int, wk: Seq<(Seq<char>, int)>|
            #![trigger walk_end(s, wk), frontier@[k]]
            0 <= k < frontier@.len() && is_walk(es, direction, s, wk) && wk.len() == 0 && walk_end(s, wk) == frontier@[k].0@
                implies !rows_before(walk_rows(wk), entry_rows(frontier@[k])) by {
            assert(walk_rows(wk).len() == 0);
        }
    }
    let mut level: usize = 0;
    while level < max_depth && frontier.len() > 0
        invariant
            es == edges@,
            s == start@,
            s != goal@,
            level <= max_depth,
            views(visited@).no_duplicates(),
            as_set(visited@) == reach(es, direction, s, level as nat),
            entry_nodes(frontier@).no_duplicates(),
            forall|n: Seq<char>| #[trigger] entry_nodes(frontier@).contains(n) <==> frontier_set(es, direction, None, s, level as nat).contains(n),
            forall|k: int| 0 <= k < frontier@.len() ==> {
                &&& is_walk(es, direction, s, steps_view((#[trigger] frontier@[k]).1@))
                &&& frontier@[k].1@.len() == level
                &&& walk_end(s, steps_view(frontier@[k].1@)) == frontier@[k].0@
            },
            !reach(es, direction, s, level as nat).contains(goal@),
            rows_sorted(frontier@),
            forall|k: int, wk: Seq<(Seq<char>, int)>|
                #![trigger walk_end(s, wk), frontier@[k]]
                0 <= k < frontier@.len() && is_walk(es, direction, s, wk) && wk.len() == level && walk_end(s, wk) == frontier@[k].0@
                    ==> !rows_before(walk_rows(wk), entry_rows(frontier@[k])),
        decreases max_depth - level,
    {
        let ghost w = reach(es, direction, s, level as nat);
        let ghost f = frontier_set(es, direction, None, s, level as nat);
        let mut next: Vec<(String, Vec<Step>)> = Vec::new();
        let mut fi: usize = 0;
        proof {
            assert(entry_nodes(next@) =~= Seq::<Seq<char>>::empty());
            assert forall|n: Seq<char>| #[trigger] views(visited@).contains(n) <==> (w.contains(n) || entry_nodes(next@).contains(n)) by {
                assert(as_set(visited@).contains(n) == views(visited@).contains(n));
            }
        }
        while fi < frontier.len()
            invariant
                es == edges@,
                s == start@,
                w == reach(es, direction, s, level as nat),
                f == frontier_set(es, direction, None, s, level as nat),
                !w.contains(goal@),
                level < max_depth,
                fi <= frontier@.len(),
                forall|k: int| 0 <= k < frontier@.len() ==> {
                    &&& is_walk(es, direction, s, steps_view((#[trigger] frontier@[k]).1@))
                    &&& frontier@[k].1@.len() == level
                    &&& walk_end(s, steps_view(frontier@[k].1@)) == frontier@[k].0@
                },
                forall|n: Seq<char>| #[trigger] entry_nodes(frontier@).contains(n) <==> f.contains(n),
                views(visited@).no_duplicates(),
                forall|n: Seq<char>| #[trigger] views(visited@).contains(n) <==> (w.contains(n) || entry_nodes(next@).contains(n)),
                good_entries(es, direction, s, level as nat, goal@, next@),
                forall|k: int, i: int, n: Seq<char>| 0 <= k < fi && 0 <= i < es.len() && adjacent(direction, #[trigger] es[i], #[trigger] frontier@[k].0@, n) ==> #[trigger] views(visited@).contains(n),
                rows_sorted(frontier@),
                forall|k: int, wk: Seq<(Seq<char>, int)>|
                    #![trigger walk_end(s, wk), frontier@[k]]
                    0 <= k < frontier@.len() && is_walk(es, direction, s, wk) && wk.len() == level && walk_end(s, wk) == frontier@[k].0@
                        ==> !rows_before(walk_rows(wk), entry_rows(frontier@[k])),
                rows_sorted(next@),
                forall|k: int, k2: int|
                    0 <= k < next@.len() && fi <= k2 < frontier@.len() ==> rows_before(
                        entry_rows(#[trigger] next@[k]).drop_last(),
                        entry_rows(#[trigger] frontier@[k2]),
                    ),
                forall|k: int, k1: int, r: int|
                    0 <= k < next@.len() && 0 <= k1 < fi && 0 <= r < es.len() && adjacent(
                        direction,
                        #[trigger] es[r],
                        (#[trigger] frontier@[k1]).0@,
                        (#[trigger] next@[k]).0@,
                    ) ==> !rows_before(entry_rows(frontier@[k1]).push(r), entry_rows(next@[k])),
            decreases frontier.len() - fi,
        {
            let ghost before = visited@;
            let ghost before_next = next@;
            proof {
                assert(frontier@[fi as int].0@ == entry_nodes(frontier@)[fi as int]);
                assert(entry_nodes(frontier@).contains(frontier@[fi as int].0@));
                assert(f.contains(frontier@[fi as int].0@));
                if level > 0 {
                    assert(f == w.difference(reach(es, direction, s, (level - 1) as nat)));
                } else {
                    assert(f == w);
                }
                assert(w.contains(frontier@[fi as int].0@));
            }
            let res = expand(
                edges,
                direction,
                &frontier[fi].0,
                &frontier[fi].1,
                goal,
                visited,
                next,
                Ghost(s),
                Ghost(level as nat),
            );
            match res {
                Err(p) => {
                    proof {
                        assert forall|other: Seq<(Seq<char>, int)>|
                            is_walk(es, direction, s, other) && #[trigger] walk_end(s, other) == goal@
                                implies other.len() >= p@.len() by {
                            lemma_no_shorter_walk(es, direction, s, goal@, (level + 1) as nat, other);
                        }
                        let j = p@[level as int].1 as int;
                        let pf = entry_rows(frontier@[fi as int]);
                        let cur = frontier@[fi as int].0@;
                        assert(walk_rows(steps_view(p@)) == pf.push(j));
                        assert(!views(before).contains(goal@)) by {
                            if entry_nodes(before_next).contains(goal@) {
                                let x = choose|x: int| 0 <= x < entry_nodes(before_next).len() && entry_nodes(before_next)[x] == goal@;
                                assert(before_next[x].0@ == goal@);
                            }
                        }
                        assert forall|other: Seq<(Seq<char>, int)>|
                            is_walk(es, direction, s, other) && #[trigger] walk_end(s, other) == goal@ && other.len() == p@.len()
                                implies !rows_before(walk_rows(other), walk_rows(steps_view(p@))) by {
                            lemma_last_step_from_frontier(es, direction, s, level as nat, other);
                            let o1 = other.drop_last();
                            let m = walk_end(s, o1);
                            let r = other.last().1;
                            assert(entry_nodes(frontier@).contains(m));
                            let k = choose|k: int| 0 <= k < entry_nodes(frontier@).len() && entry_nodes(frontier@)[k] == m;
                            assert(frontier@[k].0@ == m);
                            assert(!rows_before(walk_rows(o1), entry_rows(frontier@[k])));
                            lemma_rows_total(entry_rows(frontier@[k]), walk_rows(o1));
                            if k < fi {
                                assert(adjacent(direction, es[r], frontier@[k].0@, goal@));
                                assert(views(before).contains(goal@));
                            } else if k == fi {
                                if r < j {
                                    assert(!adjacent(direction, es[r], cur, goal@));
                                }
                                lemma_rows_push(pf, walk_rows(o1), j, r);
                                lemma_rows_le_chain(pf.push(j), walk_rows(other), walk_rows(other));
                            } else {
                                assert(rows_before(entry_rows(frontier@[fi as int]), entry_rows(frontier@[k])));
                                lemma_rows_le_chain(pf, entry_rows(frontier@[k]), walk_rows(o1));
                                lemma_rows_push(pf, walk_rows(o1), j, r);
                                lemma_rows_le_chain(pf.push(j), walk_rows(other), walk_rows(other));
                            }
                        }
                    }
                    return Some(p);
                },
                Ok((v, n)) => {
                    visited = v;
                    next = n;
                    proof {
                        let pf = entry_rows(frontier@[fi as int]);
                        assert forall|k: int, k2: int|
                            0 <= k < next@.len() && fi + 1 <= k2 < frontier@.len() implies rows_before(
                                entry_rows(#[trigger] next@[k]).drop_last(),
                                entry_rows(#[trigger] frontier@[k2]),
                            ) by {
                            assert(rows_before(pf, entry_rows(frontier@[k2])));
                            lemma_rows_le_chain(entry_rows(next@[k]).drop_last(), pf, entry_rows(frontier@[k2]));
                        }
                        assert forall|k: int, k1: int, r: int|
                            0 <= k < next@.len() && 0 <= k1 < fi + 1 && 0 <= r < es.len() && adjacent(
                                direction,
                                #[trigger] es[r],
                                (#[trigger] frontier@[k1]).0@,
                                (#[trigger] next@[k]).0@,
                            ) implies !rows_before(entry_rows(frontier@[k1]).push(r), entry_rows(next@[k])) by {
                            if k1 < fi {
                                if k < before_next.len() {
                                    assert(next@[k] == before_next[k]);
                                } else {
                                    assert(views(before).contains(next@[k].0@));
                                }
                            }
                        }
                        assert forall|k: int, i: int, nn: Seq<char>| 0 <= k < fi + 1 && 0 <= i < es.len() && adjacent(direction, #[trigger] es[i], #[trigger] frontier@[k].0@, nn) implies #[trigger] views(visited@).contains(nn) by {
                            if k < fi {
                                assert(views(before).contains(nn));
                            }
                        }
                    }
                },
            }
            fi = fi + 1;
        }
        proof {
            let w1 = reach(es, direction, s, (level + 1) as nat);
            let f1 = frontier_set(es, direction, None, s, (level + 1) as nat);
            lemma_within_monotone(es, direction, None, s, level as nat, (level + 1) as nat);
            assert forall|n: Seq<char>| #[trigger] entry_nodes(next@).contains(n) <==> f1.contains(n) by {
                if entry_nodes(next@).contains(n) {
                    let k = choose|k: int| 0 <= k < entry_nodes(next@).len() && entry_nodes(next@)[k] == n;
                    assert(next@[k].0@ == n);
                    lemma_walk_within(es, direction, s, steps_view(next@[k].1@));
                }
                if f1.contains(n) {
                    let m = choose|m: Seq<char>| w.contains(m) && hop(es, direction, None, m, n);
                    let i = choose|i: int| 0 <= i < es.len() && edge_allowed(#[trigger] es[i], None) && adjacent(direction, es[i], m, n);
                    if level > 0 {
                        let wp = reach(es, direction, s, (level - 1) as nat);
                        if wp.contains(m) {
                            assert(w.contains(n));
                        }
                    }
                    assert(f.contains(m));
                    assert(entry_nodes(frontier@).contains(m));
                    let k = choose|k: int| 0 <= k < entry_nodes(frontier@).len() && entry_nodes(frontier@)[k] == m;
                    assert(frontier@[k].0@ == m);
                    assert(views(visited@).contains(n));
                }
            }
            assert(as_set(visited@) =~= w1) by {
                assert forall|n: Seq<char>| as_set(visited@).contains(n) <==> w1.contains(n) by {
                    assert(views(visited@).contains(n) == (w.contains(n) || entry_nodes(next@).contains(n)));
                }
            }
            assert forall|k: int| 0 <= k < next@.len() implies {
                &&& is_walk(es, direction, s, steps_view((#[trigger] next@[k]).1@))
                &&& next@[k].1@.len() == level + 1
                &&& walk_end(s, steps_view(next@[k].1@)) == next@[k].0@
            } by {}
            assert(!w1.contains(goal@)) by {
                if w1.contains(goal@) {
                    assert(views(visited@).contains(goal@));
                    if entry_nodes(next@).contains(goal@) {
                        let k = choose|k: int| 0 <= k < entry_nodes(next@).len() && entry_nodes(next@)[k] == goal@;
                        assert(next@[k].0@ == goal@);
                    }
                }
            }
        }
        proof {
            assert forall|k: int, wk: Seq<(Seq<char>, int)>|
                #![trigger walk_end(s, wk), next@[k]]
                0 <= k < next@.len() && is_walk(es, direction, s, wk) && wk.len() == level + 1 && walk_end(s, wk) == next@[k].0@
                    implies !rows_before(walk_rows(wk), entry_rows(next@[k])) by {
                lemma_last_step_from_frontier(es, direction, s, level as nat, wk);
                let o1 = wk.drop_last();
                let m = walk_end(s, o1);
                let r = wk.last().1;
                assert(entry_nodes(frontier@).contains(m));
                let k1 = choose|k1: int| 0 <= k1 < entry_nodes(frontier@).len() && entry_nodes(frontier@)[k1] == m;
                assert(frontier@[k1].0@ == m);
                let pk = entry_rows(frontier@[k1]);
                let q = entry_rows(next@[k]);
                assert(!rows_before(walk_rows(o1), pk));
                lemma_rows_total(pk, walk_rows(o1));
                assert(adjacent(direction, es[r], frontier@[k1].0@, next@[k].0@));
                assert(!rows_before(pk.push(r), q));
                lemma_rows_total(q, pk.push(r));
                lemma_rows_push(pk, walk_rows(o1), r, r);
                lemma_rows_le_chain(q, pk.push(r), walk_rows(wk));
                lemma_rows_le_chain(q, walk_rows(wk), walk_rows(wk));
            }
        }
        frontier = next;
        level = level + 1;
    }
    proof {
        if level < max_depth {
            assert(level > 0) by {
                if level == 0 {
                    assert(frontier_set(es, direction, None, s, 0).contains(s));
                    assert(entry_nodes(frontier@).contains(s));
                }
            }
            lemma_within_monotone(es, direction, None, s, (level - 1) as nat, level as nat);
            assert(reach(es, direction, s, level as nat) =~= reach(es, direction, s, (level - 1) as nat)) by {
                assert forall|n: Seq<char>| reach(es, direction, s, level as nat).contains(n) implies reach(es, direction, s, (level - 1) as nat).contains(n) by {
                    if !reach(es, direction, s, (level - 1) as nat).contains(n) {
                        assert(frontier_set(es, direction, None, s, level as nat).contains(n));
                        assert(entry_nodes(frontier@).contains(n));
                    }
                }
            }
            lemma_within_stable(es, direction, None, s, (level - 1) as nat, max_depth as nat);
        }
        assert forall|other: Seq<(Seq<char>, int)>|
            is_walk(es, direction, s, other) && #[trigger] walk_end(s, other) == goal@
                implies other.len() > max_depth by {
            lemma_no_shorter_walk(es, direction, s, goal@, (max_depth + 1) as nat, other);
        }
    }
    None
}

} // verus!
