//! Gold questions: deterministic checks that traversing from given seed nodes
//! reaches the nodes a question expects.

use vstd::prelude::*;
use crate::error::GraphError;
use crate::graph::{preds_view, traverse, within, GraphEdge};
use crate::keyed::{keyed_insert, keys_increasing, lemma_map_view, lex_lt, map_view};
use crate::model::{Direction, GoldQuestion, GOLD_FILE};
use crate::query::{direction_of, parse_direction};
use crate::text::{decimal, decimal_string, is_blank, list_contains, owned, push_str, views, all_white};

verus! {

/// What to do with a gold question.
#[derive(Debug, Clone, Copy, PartialEq, Eq, Structural)]
pub enum GoldPlan {
    /// Not executable: it names no seed or no expected node.
    Skip,
    /// Traverse from the seeds in this direction.
    Run(Direction),
}

/// Where a question stands: the gold file and its one-based number.
pub open spec fn question_place(index: nat) -> Seq<char> {
    GOLD_FILE@ + ": question "@ + decimal(index + 1)
}

/// What a gold question asks for, or why it is malformed.
pub open spec fn gold_plan_spec(index: nat, q: GoldQuestion) -> Result<GoldPlan, Seq<char>> {
    if all_white(q.question@) {
        Err(question_place(index) + " requires a non-empty question"@)
    } else if q.seeds@.len() == 0 || q.expected_nodes@.len() == 0 {
        Ok(GoldPlan::Skip)
    } else {
        match direction_of(q.direction@) {
            None => Err(question_place(index) + " direction must be in, out, or both"@),
            Some(d) => Ok(GoldPlan::Run(d)),
        }
    }
}

/// What gold question `index` (counted from zero) asks for: a question
/// without seeds or expected nodes is skipped; a blank question or an unknown
/// direction is an error.
pub fn plan_gold_question(index: usize, q: &GoldQuestion) -> (out: Result<GoldPlan, GraphError>)
    requires
        index < usize::MAX,
    ensures
        match (out, gold_plan_spec(index as nat, *q)) {
            (Ok(p), Ok(s)) => p == s,
            (Err(e), Err(m)) => e.text() == m,
            _ => false,
        },
{
    let mut place = owned(GOLD_FILE);
    push_str(&mut place, ": question ");
    let d = decimal_string(index + 1);
    push_str(&mut place, d.as_str());
    if is_blank(q.question.as_str()) {
        push_str(&mut place, " requires a non-empty question");
        return Err(GraphError::msg(place));
    }
    if q.seeds.len() == 0 || q.expected_nodes.len() == 0 {
        return Ok(GoldPlan::Skip);
    }
    match parse_direction(q.direction.as_str()) {
        Ok(d) => Ok(GoldPlan::Run(d)),
        Err(_) => {
            push_str(&mut place, " direction must be in, out, or both");
            Err(GraphError::msg(place))
        },
    }
}

/// Adds `s` to a list of distinct strings unless it is there.
fn add_distinct(v: &mut Vec<String>, s: &String)
    requires
        views(old(v)@).no_duplicates(),
    ensures
        views(final(v)@).no_duplicates(),
        forall|x: Seq<char>| #[trigger] views(final(v)@).contains(x) <==> views(old(v)@).contains(x) || x == s@,
{
    let ghost before = views(v@);
    if !list_contains(v, s.as_str()) {
        v.push(s.clone());
        assert(views(v@) =~= before.push(s@));
        assert forall|x: Seq<char>| #[trigger] views(v@).contains(x) <==> before.contains(x) || x == s@ by {
            if views(v@).contains(x) {
                let k = choose|k: int| 0 <= k < views(v@).len() && views(v@)[k] == x;
                if k < before.len() {
                    assert(before[k] == x);
                }
            }
            if before.contains(x) {
                let k = choose|k: int| 0 <= k < before.len() && before[k] == x;
                assert(views(v@)[k] == x);
            }
            if x == s@ {
                assert(views(v@)[before.len() as int] == x);
            }
        }
    }
}

/// The outcome of one gold question.
#[derive(Debug, Clone)]
pub struct GoldCheck {
    /// The distinct nodes the traversals from the seeds reached.
    pub retrieved: Vec<String>,
    /// The distinct expected nodes.
    pub expected: Vec<String>,
    /// The expected nodes that were not reached, in increasing order.
    pub missing: Vec<String>,
}

/// Some seed reaches `n` within `depth` hops.
pub open spec fn retrieved_by(
    edges: Seq<GraphEdge>,
    dir: Direction,
    preds: Option<Seq<Seq<char>>>,
    seeds: Seq<Seq<char>>,
    depth: nat,
    n: Seq<char>,
) -> bool {
    exists|i: int| 0 <= i < seeds.len() && within(edges, dir, preds, #[trigger] seeds[i], depth).contains(n)
}

/// Traverses from each seed (resolved node ids) and compares the nodes
/// reached with the expected ones (resolved node ids).
pub fn gold_check(
    edges: &Vec<GraphEdge>,
    seeds: &Vec<String>,
    expected: &Vec<String>,
    depth: usize,
    direction: Direction,
    predicates: Option<&Vec<String>>,
) -> (out: GoldCheck)
    ensures
        views(out.retrieved@).no_duplicates(),
        forall|n: Seq<char>|
            #[trigger] views(out.retrieved@).contains(n) <==> retrieved_by(
                edges@,
                direction,
                preds_view(predicates),
                views(seeds@),
                depth as nat,
                n,
            ),
        views(out.expected@).no_duplicates(),
        forall|n: Seq<char>| #[trigger] views(out.expected@).contains(n) <==> views(expected@).contains(n),
        forall|i: int, j: int|
            0 <= i < j < out.missing@.len() ==> lex_lt((#[trigger] out.missing@[i])@, (#[trigger] out.missing@[j])@),
        forall|n: Seq<char>|
            #[trigger] views(out.missing@).contains(n) <==> views(expected@).contains(n) && !views(
                out.retrieved@,
            ).contains(n),
{
    let ghost pv = preds_view(predicates);
    let mut retrieved: Vec<String> = Vec::new();
    let mut i: usize = 0;
    while i < seeds.len()
        invariant
            i <= seeds@.len(),
            pv == preds_view(predicates),
            views(retrieved@).no_duplicates(),
            forall|n: Seq<char>|
                #[trigger] views(retrieved@).contains(n) <==> retrieved_by(
                    edges@,
                    direction,
                    pv,
                    views(seeds@).take(i as int),
                    depth as nat,
                    n,
                ),
        decreases seeds.len() - i,
    {
        let hood = traverse(edges, seeds[i].as_str(), depth, direction, predicates);
        let ghost before = views(retrieved@);
        let mut k: usize = 0;
        while k < hood.nodes.len()
            invariant
                k <= hood.nodes@.len(),
                views(retrieved@).no_duplicates(),
                forall|n: Seq<char>|
                    #[trigger] views(retrieved@).contains(n) <==> before.contains(n) || views(hood.nodes@).take(
                        k as int,
                    ).contains(n),
            decreases hood.nodes.len() - k,
        {
            let ghost mid = views(retrieved@);
            add_distinct(&mut retrieved, &hood.nodes[k]);
            assert forall|n: Seq<char>|
                #[trigger] views(retrieved@).contains(n) <==> before.contains(n) || views(hood.nodes@).take(
                    k + 1,
                ).contains(n) by {
                assert(views(hood.nodes@).take(k + 1) =~= views(hood.nodes@).take(k as int).push(hood.nodes@[k as int]@));
                let t0 = views(hood.nodes@).take(k as int);
                let t1 = views(hood.nodes@).take(k + 1);
                if t0.contains(n) {
                    let x = choose|x: int| 0 <= x < t0.len() && t0[x] == n;
                    assert(t1[x] == n);
                }
                if n == hood.nodes@[k as int]@ {
                    assert(t1[k as int] == n);
                }
                if t1.contains(n) && n != hood.nodes@[k as int]@ {
                    let x = choose|x: int| 0 <= x < t1.len() && t1[x] == n;
                    assert(x < k);
                    assert(t0[x] == n);
                }
                if mid.contains(n) {
                    assert(before.contains(n) || t0.contains(n));
                }
                if before.contains(n) || t0.contains(n) {
                    assert(mid.contains(n));
                }
            }
            k = k + 1;
        }
        assert(views(hood.nodes@).take(hood.nodes@.len() as int) =~= views(hood.nodes@));
        assert forall|n: Seq<char>|
            #[trigger] views(retrieved@).contains(n) <==> retrieved_by(
                edges@,
                direction,
                pv,
                views(seeds@).take(i + 1),
                depth as nat,
                n,
            ) by {
            let s2 = views(seeds@).take(i + 1);
            let s1 = views(seeds@).take(i as int);
            assert(s2[i as int] == seeds@[i as int]@);
            if retrieved_by(edges@, direction, pv, s2, depth as nat, n) {
                let x = choose|x: int| 0 <= x < s2.len() && within(edges@, direction, pv, #[trigger] s2[x], depth as nat).contains(n);
                if x < i {
                    assert(s1[x] == s2[x]);
                }
            }
            if retrieved_by(edges@, direction, pv, s1, depth as nat, n) {
                let x = choose|x: int| 0 <= x < s1.len() && within(edges@, direction, pv, #[trigger] s1[x], depth as nat).contains(n);
                assert(s2[x] == s1[x]);
            }
        }
        i = i + 1;
    }
    assert(views(seeds@).take(seeds@.len() as int) =~= views(seeds@));
    let mut wanted: Vec<String> = Vec::new();
    let mut missing_map: Vec<(String, ())> = Vec::new();
    let mut j: usize = 0;
    while j < expected.len()
        invariant
            j <= expected@.len(),
            views(wanted@).no_duplicates(),
            forall|n: Seq<char>| #[trigger] views(wanted@).contains(n) <==> views(expected@).take(j as int).contains(n),
            keys_increasing(missing_map@),
            forall|n: Seq<char>|
                #[trigger] map_view(missing_map@).contains_key(n) <==> views(expected@).take(j as int).contains(n)
                    && !views(retrieved@).contains(n),
        decreases expected.len() - j,
    {
        let ghost w0 = views(expected@).take(j as int);
        let ghost w1 = views(expected@).take(j + 1);
        assert(w1 =~= w0.push(expected@[j as int]@));
        add_distinct(&mut wanted, &expected[j]);
        let ghost before = missing_map@;
        if !list_contains(&retrieved, expected[j].as_str()) {
            keyed_insert(&mut missing_map, expected[j].clone(), ());
        }
        assert forall|n: Seq<char>| #[trigger] views(wanted@).contains(n) <==> w1.contains(n) by {
            if w0.contains(n) {
                let x = choose|x: int| 0 <= x < w0.len() && w0[x] == n;
                assert(w1[x] == n);
            }
            if w1.contains(n) && n != expected@[j as int]@ {
                let x = choose|x: int| 0 <= x < w1.len() && w1[x] == n;
                assert(w0[x] == n);
            }
            if n == expected@[j as int]@ {
                assert(w1[j as int] == n);
            }
        }
        assert forall|n: Seq<char>|
            #[trigger] map_view(missing_map@).contains_key(n) <==> w1.contains(n) && !views(retrieved@).contains(n) by {
            if w0.contains(n) {
                let x = choose|x: int| 0 <= x < w0.len() && w0[x] == n;
                assert(w1[x] == n);
            }
            if w1.contains(n) && n != expected@[j as int]@ {
                let x = choose|x: int| 0 <= x < w1.len() && w1[x] == n;
                assert(w0[x] == n);
            }
            if n == expected@[j as int]@ {
                assert(w1[j as int] == n);
            }
        }
        j = j + 1;
    }
    assert(views(expected@).take(expected@.len() as int) =~= views(expected@));
    proof {
        lemma_map_view(missing_map@);
    }
    let mut missing: Vec<String> = Vec::new();
    let mut k: usize = 0;
    while k < missing_map.len()
        invariant
            k <= missing_map@.len(),
            missing@.len() == k,
            forall|x: int| 0 <= x < k ==> (#[trigger] missing@[x])@ == missing_map@[x].0@,
        decreases missing_map.len() - k,
    {
        missing.push(missing_map[k].0.clone());
        k = k + 1;
    }
    assert forall|n: Seq<char>|
        #[trigger] views(missing@).contains(n) <==> views(expected@).contains(n) && !views(retrieved@).contains(n) by {
        if views(missing@).contains(n) {
            let x = choose|x: int| 0 <= x < views(missing@).len() && views(missing@)[x] == n;
            assert(missing_map@[x].0@ == n);
            assert(map_view(missing_map@).contains_key(n));
        }
        if views(expected@).contains(n) && !views(retrieved@).contains(n) {
            assert(map_view(missing_map@).contains_key(n));
            let x = choose|x: int| 0 <= x < missing_map@.len() && (#[trigger] missing_map@[x]).0@ == n;
            assert(views(missing@)[x] == n);
        }
    }
    GoldCheck { retrieved, expected: wanted, missing }
}

} // verus!
