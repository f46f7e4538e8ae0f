//! Mermaid flowchart source for the reviewed graph: one subgraph per node
//! type, in type order, and one arrow per edge.

use vstd::prelude::*;
use crate::keyed::{keyed_insert, keys_increasing, lex_lt, lemma_lex_irreflexive, lemma_lex_asymmetric, lemma_map_view, map_view};
use crate::text::{decimal, decimal_string, join, join_strings, list_contains, owned, push_char, push_str, str_eq, views, chars_of};

verus! {

/// A node as the export shows it.
#[derive(Debug)]
pub struct NodeSummary {
    pub id: String,
    pub name: String,
    pub node_type: String,
}

impl Clone for NodeSummary {
    fn clone(&self) -> (out: Self)
        ensures
            out == *self,
    {
        NodeSummary { id: self.id.clone(), name: self.name.clone(), node_type: self.node_type.clone() }
    }
}

/// An edge as the export shows it.
#[derive(Debug)]
pub struct EdgeSummary {
    pub source_id: String,
    pub target_id: String,
    pub predicate: String,
}

impl Clone for EdgeSummary {
    fn clone(&self) -> (out: Self)
        ensures
            out == *self,
    {
        EdgeSummary {
            source_id: self.source_id.clone(),
            target_id: self.target_id.clone(),
            predicate: self.predicate.clone(),
        }
    }
}

/// How one character is written in a Mermaid label.
pub open spec fn mermaid_char(c: char) -> Seq<char> {
    if c == '\\' {
        seq!['\\', '\\']
    } else if c == '"' {
        "&quot;"@
    } else if c == '\n' {
        "<br/>"@
    } else {
        seq![c]
    }
}

/// A string as a Mermaid label: `\` doubled, `"` as `&quot;`, line breaks as
/// `<br/>`.
pub open spec fn mermaid_escape_spec(s: Seq<char>) -> Seq<char>
    decreases s.len(),
{
    if s.len() == 0 {
        seq![]
    } else {
        mermaid_escape_spec(s.drop_last()) + mermaid_char(s.last())
    }
}

/// A string as a Mermaid label.
pub fn mermaid_escape(value: &str) -> (out: String)
    ensures
        out@ == mermaid_escape_spec(value@),
{
    let v = chars_of(value);
    let mut out = String::new();
    let mut i: usize = 0;
    while i < v.len()
        invariant
            v@ == value@,
            i <= v.len(),
            out@ == mermaid_escape_spec(value@.take(i as int)),
        decreases v.len() - i,
    {
        let c = v[i];
        if c == '\\' {
            push_char(&mut out, '\\');
            push_char(&mut out, '\\');
        } else if c == '"' {
            push_str(&mut out, "&quot;");
        } else if c == '\n' {
            push_str(&mut out, "<br/>");
        } else {
            push_char(&mut out, c);
        }
        assert(value@.take(i + 1).drop_last() =~= value@.take(i as int));
        assert(value@.take(i + 1).last() == c);
        i = i + 1;
    }
    assert(value@.take(v.len() as int) =~= value@);
    out
}

/// The nodes the selection keeps (all of them without a selection).
pub open spec fn kept_nodes(nodes: Seq<NodeSummary>, sel: Option<Seq<Seq<char>>>) -> Seq<NodeSummary>
    decreases nodes.len(),
{
    if nodes.len() == 0 {
        seq![]
    } else {
        kept_nodes(nodes.drop_last(), sel) + match sel {
            Some(s) => if s.contains(nodes.last().id@) {
                seq![nodes.last()]
            } else {
                seq![]
            },
            None => seq![nodes.last()],
        }
    }
}

/// The edges the selection keeps: those with both endpoints selected.
pub open spec fn kept_edges(edges: Seq<EdgeSummary>, sel: Option<Seq<Seq<char>>>) -> Seq<EdgeSummary>
    decreases edges.len(),
{
    if edges.len() == 0 {
        seq![]
    } else {
        kept_edges(edges.drop_last(), sel) + match sel {
            Some(s) => if s.contains(edges.last().source_id@) && s.contains(edges.last().target_id@) {
                seq![edges.last()]
            } else {
                seq![]
            },
            None => seq![edges.last()],
        }
    }
}

/// Some node has this id.
pub open spec fn has_node(nodes: Seq<NodeSummary>, id: Seq<char>) -> bool {
    exists|i: int| 0 <= i < nodes.len() && (#[trigger] nodes[i]).id@ == id
}

/// The position of the last node with this id.
pub open spec fn last_position(nodes: Seq<NodeSummary>, id: Seq<char>) -> int
    decreases nodes.len(),
{
    if nodes.len() == 0 {
        -1
    } else if nodes.last().id@ == id {
        nodes.len() - 1
    } else {
        last_position(nodes.drop_last(), id)
    }
}

/// The chart id of a node: `N` and its one-based position.
pub open spec fn chart_id(nodes: Seq<NodeSummary>, id: Seq<char>) -> Seq<char> {
    seq!['N'] + decimal((last_position(nodes, id) + 1) as nat)
}

/// The nodes of one type, in order.
pub open spec fn of_type(nodes: Seq<NodeSummary>, t: Seq<char>) -> Seq<NodeSummary>
    decreases nodes.len(),
{
    if nodes.len() == 0 {
        seq![]
    } else {
        of_type(nodes.drop_last(), t) + if nodes.last().node_type@ == t {
            seq![nodes.last()]
        } else {
            seq![]
        }
    }
}

/// The line of a node: its chart id and its name over its id.
pub open spec fn node_line(nodes: Seq<NodeSummary>, n: NodeSummary) -> Seq<char> {
    "        "@ + chart_id(nodes, n.id@) + "[\""@ + mermaid_escape_spec(
        n.name@ + "<br/><small>"@ + n.id@ + "</small>"@,
    ) + "\"]"@
}

/// The lines of the subgraph of type `t`, the `g`-th one.
pub open spec fn group_lines(nodes: Seq<NodeSummary>, t: Seq<char>, g: nat) -> Seq<Seq<char>> {
    seq!["    subgraph G"@ + decimal(g + 1) + "[\""@ + mermaid_escape_spec(t) + "\"]"@] + of_type(nodes, t).map_values(
        |n: NodeSummary| node_line(nodes, n),
    ) + seq!["    end"@]
}

/// The subgraphs of the given types, in order.
pub open spec fn groups(nodes: Seq<NodeSummary>, types: Seq<Seq<char>>) -> Seq<Seq<char>>
    decreases types.len(),
{
    if types.len() == 0 {
        seq![]
    } else {
        groups(nodes, types.drop_last()) + group_lines(nodes, types.last(), (types.len() - 1) as nat)
    }
}

/// The line of an edge: an arrow labelled with its predicate.
pub open spec fn edge_line(nodes: Seq<NodeSummary>, e: EdgeSummary) -> Seq<char> {
    "    "@ + chart_id(nodes, e.source_id@) + " -->|\""@ + mermaid_escape_spec(e.predicate@) + "\"| "@
        + chart_id(nodes, e.target_id@)
}

/// The node types in increasing order, each once: exactly the types of the nodes.
pub open spec fn type_order(nodes: Seq<NodeSummary>, types: Seq<Seq<char>>) -> bool {
    &&& forall|i: int, j: int| 0 <= i < j < types.len() ==> lex_lt(#[trigger] types[i], #[trigger] types[j])
    &&& forall|t: Seq<char>| #[trigger] types.contains(t) <==> exists|i: int| 0 <= i < nodes.len() && (#[trigger] nodes[i]).node_type@ == t
}

/// The chart: a header line, the subgraphs of the node types in order, and
/// the arrows of the edges, one per line, ending with a line break.
pub open spec fn mermaid_spec(nodes: Seq<NodeSummary>, edges: Seq<EdgeSummary>, types: Seq<Seq<char>>) -> Seq<char> {
    join(
        seq!["flowchart LR"@] + groups(nodes, types) + edges.map_values(|e: EdgeSummary| edge_line(nodes, e)),
        "\n"@,
    ) + "\n"@
}

/// Two increasing sequences with the same elements are equal.
pub proof fn lemma_increasing_unique(a: Seq<Seq<char>>, b: Seq<Seq<char>>)
    requires
        forall|i: int, j: int| 0 <= i < j < a.len() ==> lex_lt(#[trigger] a[i], #[trigger] a[j]),
        forall|i: int, j: int| 0 <= i < j < b.len() ==> lex_lt(#[trigger] b[i], #[trigger] b[j]),
        forall|t: Seq<char>| a.contains(t) <==> b.contains(t),
    ensures
        a == b,
    decreases a.len(),
{
    if a.len() == 0 {
        if b.len() > 0 {
            assert(b.contains(b[0]));
        }
        assert(a =~= b);
    } else {
        assert(a.contains(a[0]));
        assert(b.len() > 0);
        assert(b.contains(b[0]));
        let j = choose|j: int| 0 <= j < a.len() && a[j] == b[0];
        let k = choose|k: int| 0 <= k < b.len() && b[k] == a[0];
        if a[0] != b[0] {
            assert(j > 0 && k > 0);
            assert(lex_lt(a[0], a[j]));
            assert(lex_lt(b[0], b[k]));
            lemma_lex_asymmetric(a[0], b[0]);
        }
        let a1 = a.drop_first();
        let b1 = b.drop_first();
        assert forall|t: Seq<char>| a1.contains(t) <==> b1.contains(t) by {
            if a1.contains(t) {
                let x = choose|x: int| 0 <= x < a1.len() && a1[x] == t;
                assert(a[x + 1] == t);
                assert(lex_lt(a[0], a[x + 1]));
                assert(b.contains(t));
                let y = choose|y: int| 0 <= y < b.len() && b[y] == t;
                if y == 0 {
                    lemma_lex_irreflexive(t);
                }
                assert(b1[y - 1] == t);
            }
            if b1.contains(t) {
                let x = choose|x: int| 0 <= x < b1.len() && b1[x] == t;
                assert(b[x + 1] == t);
                assert(lex_lt(b[0], b[x + 1]));
                assert(a.contains(t));
                let y = choose|y: int| 0 <= y < a.len() && a[y] == t;
                if y == 0 {
                    lemma_lex_irreflexive(t);
                }
                assert(a1[y - 1] == t);
            }
        }
        assert forall|i: int, j: int| 0 <= i < j < a1.len() implies lex_lt(#[trigger] a1[i], #[trigger] a1[j]) by {
            assert(a1[i] == a[i + 1] && a1[j] == a[j + 1]);
        }
        assert forall|i: int, j: int| 0 <= i < j < b1.len() implies lex_lt(#[trigger] b1[i], #[trigger] b1[j]) by {
            assert(b1[i] == b[i + 1] && b1[j] == b[j + 1]);
        }
        lemma_increasing_unique(a1, b1);
        assert(a =~= seq![a[0]] + a1);
        assert(b =~= seq![b[0]] + b1);
    }
}

/// The view of an optional selection.
pub open spec fn selection(sel: Option<&Vec<String>>) -> Option<Seq<Seq<char>>> {
    match sel {
        Some(s) => Some(views(s@)),
        None => None,
    }
}

/// The nodes the selection keeps.
fn keep_nodes(nodes: &Vec<NodeSummary>, sel: Option<&Vec<String>>) -> (out: Vec<NodeSummary>)
    ensures
        out@ == kept_nodes(nodes@, selection(sel)),
{
    let mut out: Vec<NodeSummary> = Vec::new();
    let mut i: usize = 0;
    while i < nodes.len()
        invariant
            i <= nodes@.len(),
            out@ == kept_nodes(nodes@.take(i as int), selection(sel)),
        decreases nodes.len() - i,
    {
        let keep = match sel {
            Some(s) => list_contains(s, nodes[i].id.as_str()),
            None => true,
        };
        if keep {
            out.push(nodes[i].clone());
        }
        assert(nodes@.take(i + 1).drop_last() =~= nodes@.take(i as int));
        assert(nodes@.take(i + 1).last() == nodes@[i as int]);
        assert(out@ =~= kept_nodes(nodes@.take(i + 1), selection(sel)));
        i = i + 1;
    }
    assert(nodes@.take(nodes@.len() as int) =~= nodes@);
    out
}

/// The edges the selection keeps.
fn keep_edges(edges: &Vec<EdgeSummary>, sel: Option<&Vec<String>>) -> (out: Vec<EdgeSummary>)
    ensures
        out@ == kept_edges(edges@, selection(sel)),
{
    let mut out: Vec<EdgeSummary> = Vec::new();
    let mut i: usize = 0;
    while i < edges.len()
        invariant
            i <= edges@.len(),
            out@ == kept_edges(edges@.take(i as int), selection(sel)),
        decreases edges.len() - i,
    {
        let keep = match sel {
            Some(s) => list_contains(s, edges[i].source_id.as_str()) && list_contains(s, edges[i].target_id.as_str()),
            None => true,
        };
        if keep {
            out.push(edges[i].clone());
        }
        assert(edges@.take(i + 1).drop_last() =~= edges@.take(i as int));
        assert(edges@.take(i + 1).last() == edges@[i as int]);
        assert(out@ =~= kept_edges(edges@.take(i + 1), selection(sel)));
        i = i + 1;
    }
    assert(edges@.take(edges@.len() as int) =~= edges@);
    out
}

/// The chart id of a node that is present.
fn chart_id_of(nodes: &Vec<NodeSummary>, id: &str) -> (out: String)
    requires
        has_node(nodes@, id@),
    ensures
        out@ == chart_id(nodes@, id@),
{
    let mut i: usize = nodes.len();
    assert(nodes@.take(nodes@.len() as int) =~= nodes@);
    while i > 0
        invariant
            i <= nodes@.len(),
            last_position(nodes@, id@) == last_position(nodes@.take(i as int), id@),
            exists|j: int| 0 <= j < i && (#[trigger] nodes@[j]).id@ == id@,
        decreases i,
    {
        assert(nodes@.take(i as int).last() == nodes@[i - 1]);
        if str_eq(nodes[i - 1].id.as_str(), id) {
            let mut out = owned("N");
            let d = decimal_string(i);
            push_str(&mut out, d.as_str());
            assert("N"@ =~= seq!['N']) by {
                reveal_strlit("N");
            }
            return out;
        }
        assert(nodes@.take(i as int).drop_last() =~= nodes@.take(i - 1));
        i = i - 1;
    }
    owned("N")
}

/// The distinct node types, in increasing order.
fn node_types(nodes: &Vec<NodeSummary>) -> (out: Vec<String>)
    ensures
        type_order(nodes@, views(out@)),
{
    let mut m: Vec<(String, ())> = Vec::new();
    let mut i: usize = 0;
    while i < nodes.len()
        invariant
            i <= nodes@.len(),
            keys_increasing(m@),
            forall|t: Seq<char>| #[trigger] map_view(m@).contains_key(t) <==> exists|j: int| 0 <= j < i && (#[trigger] nodes@[j]).node_type@ == t,
        decreases nodes.len() - i,
    {
        let ghost before = m@;
        keyed_insert(&mut m, nodes[i].node_type.clone(), ());
        assert forall|t: Seq<char>| #[trigger] map_view(m@).contains_key(t) <==> exists|j: int| 0 <= j < i + 1 && (#[trigger] nodes@[j]).node_type@ == t by {
            if t == nodes@[i as int].node_type@ {
                assert(map_view(m@).contains_key(t));
            } else if map_view(m@).contains_key(t) {
                assert(map_view(before).contains_key(t));
            } else if exists|j: int| 0 <= j < i + 1 && (#[trigger] nodes@[j]).node_type@ == t {
                let j = choose|j: int| 0 <= j < i + 1 && (#[trigger] nodes@[j]).node_type@ == t;
                assert(j < i);
            }
        }
        i = i + 1;
    }
    let mut out: Vec<String> = Vec::new();
    let mut k: usize = 0;
    proof {
        lemma_map_view(m@);
    }
    while k < m.len()
        invariant
            k <= m@.len(),
            out@.len() == k,
            forall|j: int| 0 <= j < k ==> (#[trigger] out@[j])@ == m@[j].0@,
        decreases m.len() - k,
    {
        out.push(m[k].0.clone());
        k = k + 1;
    }
    assert forall|a: int, b: int| 0 <= a < b < views(out@).len() implies lex_lt(#[trigger] views(out@)[a], #[trigger] views(out@)[b]) by {
        assert(views(out@)[a] == m@[a].0@ && views(out@)[b] == m@[b].0@);
    }
    assert forall|t: Seq<char>| #[trigger] views(out@).contains(t) <==> exists|j: int| 0 <= j < nodes@.len() && (#[trigger] nodes@[j]).node_type@ == t by {
        if views(out@).contains(t) {
            let x = choose|x: int| 0 <= x < views(out@).len() && views(out@)[x] == t;
            assert(m@[x].0@ == t);
            assert(map_view(m@).contains_key(t));
        }
        if exists|j: int| 0 <= j < nodes@.len() && (#[trigger] nodes@[j]).node_type@ == t {
            assert(map_view(m@).contains_key(t));
            let x = choose|x: int| 0 <= x < m@.len() && (#[trigger] m@[x]).0@ == t;
            assert(views(out@)[x] == t);
        }
    }
    out
}

/// The lines of the nodes of one type.
fn type_lines(nodes: &Vec<NodeSummary>, t: &str, lines: &mut Vec<String>)
    ensures
        views(final(lines)@) == views(old(lines)@) + of_type(nodes@, t@).map_values(|n: NodeSummary| node_line(nodes@, n)),
{
    let ghost start = views(lines@);
    let mut i: usize = 0;
    assert(of_type(nodes@.take(0), t@) =~= Seq::<NodeSummary>::empty());
    assert(views(lines@) =~= start + of_type(nodes@.take(0), t@).map_values(|n: NodeSummary| node_line(nodes@, n)));
    while i < nodes.len()
        invariant
            i <= nodes@.len(),
            views(lines@) == start + of_type(nodes@.take(i as int), t@).map_values(|n: NodeSummary| node_line(nodes@, n)),
        decreases nodes.len() - i,
    {
        let n = &nodes[i];
        let ghost prev = of_type(nodes@.take(i as int), t@);
        assert(nodes@.take(i + 1).drop_last() =~= nodes@.take(i as int));
        assert(nodes@.take(i + 1).last() == nodes@[i as int]);
        if str_eq(n.node_type.as_str(), t) {
            assert(has_node(nodes@, n.id@)) by {
                assert(nodes@[i as int].id@ == n.id@);
            }
            let cid = chart_id_of(nodes, n.id.as_str());
            let mut label = n.name.clone();
            push_str(&mut label, "<br/><small>");
            push_str(&mut label, n.id.as_str());
            push_str(&mut label, "</small>");
            let escaped = mermaid_escape(label.as_str());
            let mut line = owned("        ");
            push_str(&mut line, cid.as_str());
            push_str(&mut line, "[\"");
            push_str(&mut line, escaped.as_str());
            push_str(&mut line, "\"]");
            let ghost before = lines@;
            lines.push(line);
            assert(line@ == node_line(nodes@, nodes@[i as int]));
            assert(of_type(nodes@.take(i + 1), t@) == prev.push(nodes@[i as int]));
            assert(views(lines@) =~= views(before).push(node_line(nodes@, nodes@[i as int])));
            assert(prev.push(nodes@[i as int]).map_values(|n: NodeSummary| node_line(nodes@, n)) =~= prev.map_values(
                |n: NodeSummary| node_line(nodes@, n),
            ).push(node_line(nodes@, nodes@[i as int])));
        } else {
            assert(of_type(nodes@.take(i + 1), t@) =~= prev);
        }
        i = i + 1;
    }
    assert(nodes@.take(nodes@.len() as int) =~= nodes@);
}

/// Mermaid flowchart source for the nodes and edges (as the index lists
/// them: nodes by type and name, edges by id). With a selection, only the
/// selected nodes and the edges between two of them are shown.
pub fn mermaid(nodes: &Vec<NodeSummary>, edges: &Vec<EdgeSummary>, selected: Option<&Vec<String>>) -> (out: String)
    requires
        forall|k: int|
            0 <= k < kept_edges(edges@, selection(selected)).len() ==> has_node(
                kept_nodes(nodes@, selection(selected)),
                (#[trigger] kept_edges(edges@, selection(selected))[k]).source_id@,
            ) && has_node(kept_nodes(nodes@, selection(selected)), kept_edges(edges@, selection(selected))[k].target_id@),
    ensures
        forall|types: Seq<Seq<char>>|
            type_order(kept_nodes(nodes@, selection(selected)), types) ==> out@ == mermaid_spec(
                kept_nodes(nodes@, selection(selected)),
                kept_edges(edges@, selection(selected)),
                types,
            ),
{
    let kept = keep_nodes(nodes, selected);
    let kedges = keep_edges(edges, selected);
    let types = node_types(&kept);
    let ghost ts = views(types@);
    let mut lines: Vec<String> = Vec::new();
    lines.push(owned("flowchart LR"));
    let ghost head = seq!["flowchart LR"@];
    assert(views(lines@) =~= head + groups(kept@, ts.take(0)));
    let mut g: usize = 0;
    while g < types.len()
        invariant
            g <= types@.len(),
            ts == views(types@),
            views(lines@) == head + groups(kept@, ts.take(g as int)),
        decreases types.len() - g,
    {
        let t = types[g].as_str();
        let ghost before = views(lines@);
        let mut line = owned("    subgraph G");
        let d = decimal_string(g + 1);
        push_str(&mut line, d.as_str());
        push_str(&mut line, "[\"");
        let escaped = mermaid_escape(t);
        push_str(&mut line, escaped.as_str());
        push_str(&mut line, "\"]");
        let ghost sub = line@;
        assert(sub == "    subgraph G"@ + decimal((g as nat) + 1) + "[\""@ + mermaid_escape_spec(t@) + "\"]"@);
        lines.push(line);
        assert(views(lines@) =~= before.push(sub));
        type_lines(&kept, t, &mut lines);
        let ghost x = of_type(kept@, t@).map_values(|n: NodeSummary| node_line(kept@, n));
        assert(views(lines@) == before.push(sub) + x);
        let end_line = owned("    end");
        let ghost with_nodes = lines@;
        lines.push(end_line);
        assert(views(lines@) =~= views(with_nodes).push("    end"@));
        assert(group_lines(kept@, t@, g as nat) =~= seq![sub] + x + seq!["    end"@]);
        assert(ts.take(g + 1).drop_last() =~= ts.take(g as int));
        assert(ts.take(g + 1).last() == t@);
        assert(views(lines@) =~= before + group_lines(kept@, t@, g as nat));
        g = g + 1;
    }
    assert(ts.take(ts.len() as int) =~= ts);
    let ghost mid = views(lines@);
    let mut k: usize = 0;
    assert(views(lines@) =~= mid + kedges@.take(0).map_values(|e: EdgeSummary| edge_line(kept@, e)));
    while k < kedges.len()
        invariant
            k <= kedges@.len(),
            forall|x: int|
                0 <= x < kedges@.len() ==> has_node(kept@, (#[trigger] kedges@[x]).source_id@) && has_node(
                    kept@,
                    kedges@[x].target_id@,
                ),
            views(lines@) == mid + kedges@.take(k as int).map_values(|e: EdgeSummary| edge_line(kept@, e)),
        decreases kedges.len() - k,
    {
        let e = &kedges[k];
        assert(has_node(kept@, kedges@[k as int].source_id@));
        let sid = chart_id_of(&kept, e.source_id.as_str());
        let tid = chart_id_of(&kept, e.target_id.as_str());
        let mut line = owned("    ");
        push_str(&mut line, sid.as_str());
        push_str(&mut line, " -->|\"");
        let escaped = mermaid_escape(e.predicate.as_str());
        push_str(&mut line, escaped.as_str());
        push_str(&mut line, "\"| ");
        push_str(&mut line, tid.as_str());
        let ghost before = lines@;
        lines.push(line);
        assert(views(lines@) =~= views(before).push(edge_line(kept@, kedges@[k as int])));
        assert(kedges@.take(k + 1).map_values(|e: EdgeSummary| edge_line(kept@, e)) =~= kedges@.take(k as int).map_values(
            |e: EdgeSummary| edge_line(kept@, e),
        ).push(edge_line(kept@, kedges@[k as int])));
        k = k + 1;
    }
    assert(kedges@.take(kedges@.len() as int) =~= kedges@);
    let mut out = join_strings(&lines, "\n");
    push_str(&mut out, "\n");
    proof {
        assert forall|other: Seq<Seq<char>>| type_order(kept@, other) implies out@ == mermaid_spec(kept@, kedges@, other) by {
            lemma_increasing_unique(ts, other);
        }
    }
    out
}

} // verus!
