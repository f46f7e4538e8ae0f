//! Maps keyed by strings, held as vectors of entries in increasing key order:
//! the order of a `BTreeMap<String, _>`, which compares strings byte by byte,
//! that is, character by character by code point.

use vstd::prelude::*;
use crate::text::chars_of;

verus! {

/// `a` comes before `b` in string order.
pub open spec fn lex_lt(a: Seq<char>, b: Seq<char>) -> bool
    decreases a.len(),
{
    if a.len() == 0 {
        b.len() > 0
    } else if b.len() == 0 {
        false
    } else if a[0] != b[0] {
        a[0] < b[0]
    } else {
        lex_lt(a.drop_first(), b.drop_first())
    }
}

/// No string comes before itself.
pub proof fn lemma_lex_irreflexive(a: Seq<char>)
    ensures
        !lex_lt(a, a),
    decreases a.len(),
{
    if a.len() > 0 {
        lemma_lex_irreflexive(a.drop_first());
    }
}

/// Of two different strings, one comes before the other.
pub proof fn lemma_lex_total(a: Seq<char>, b: Seq<char>)
    ensures
        a != b ==> lex_lt(a, b) || lex_lt(b, a),
    decreases a.len(),
{
    if a.len() > 0 && b.len() > 0 && a[0] == b[0] {
        lemma_lex_total(a.drop_first(), b.drop_first());
        if a.drop_first() == b.drop_first() {
            assert(a =~= seq![a[0]] + a.drop_first());
            assert(b =~= seq![b[0]] + b.drop_first());
        }
    } else if a.len() == 0 && b.len() == 0 {
        assert(a =~= b);
    }
}

/// String order is transitive.
pub proof fn lemma_lex_transitive(a: Seq<char>, b: Seq<char>, c: Seq<char>)
    requires
        lex_lt(a, b),
        lex_lt(b, c),
    ensures
        lex_lt(a, c),
    decreases a.len(),
{
    if a.len() > 0 && b.len() > 0 && c.len() > 0 && a[0] == b[0] && b[0] == c[0] {
        lemma_lex_transitive(a.drop_first(), b.drop_first(), c.drop_first());
    }
}

/// No two strings come before each other.
pub proof fn lemma_lex_asymmetric(a: Seq<char>, b: Seq<char>)
    requires
        lex_lt(a, b),
    ensures
        !lex_lt(b, a),
{
    if lex_lt(b, a) {
        lemma_lex_transitive(a, b, a);
        lemma_lex_irreflexive(a);
    }
}

/// Whether `a` comes before `b` in string order.
pub fn str_lt(a: &str, b: &str) -> (res: bool)
    ensures
        res == lex_lt(a@, b@),
{
    let av = chars_of(a);
    let bv = chars_of(b);
    let mut i: usize = 0;
    assert(a@.skip(0) =~= a@);
    assert(b@.skip(0) =~= b@);
    while i < av.len() && i < bv.len() && av[i] == bv[i]
        invariant
            av@ == a@,
            bv@ == b@,
            i <= av.len(),
            i <= bv.len(),
            lex_lt(a@, b@) == lex_lt(a@.skip(i as int), b@.skip(i as int)),
        decreases av.len() - i,
    {
        assert(a@.skip(i as int).drop_first() =~= a@.skip(i + 1));
        assert(b@.skip(i as int).drop_first() =~= b@.skip(i + 1));
        i = i + 1;
    }
    if i == av.len() {
        i < bv.len()
    } else if i == bv.len() {
        false
    } else {
        av[i] < bv[i]
    }
}

/// The keys of the entries increase strictly.
pub open spec fn keys_increasing<V>(m: Seq<(String, V)>) -> bool {
    forall|i: int, j: int| 0 <= i < j < m.len() ==> lex_lt((#[trigger] m[i]).0@, (#[trigger] m[j]).0@)
}

/// Some entry has key `k`.
pub open spec fn has_key<V>(m: Seq<(String, V)>, k: Seq<char>) -> bool {
    exists|i: int| 0 <= i < m.len() && (#[trigger] m[i]).0@ == k
}

/// The entries as a map; a later entry for a key replaces an earlier one.
pub open spec fn map_view<V>(m: Seq<(String, V)>) -> Map<Seq<char>, V>
    decreases m.len(),
{
    if m.len() == 0 {
        Map::empty()
    } else {
        map_view(m.drop_last()).insert(m.last().0@, m.last().1)
    }
}

/// The map holds exactly the entries' keys; with distinct keys, each key maps
/// to its entry's value.
pub proof fn lemma_map_view<V>(m: Seq<(String, V)>)
    ensures
        forall|k: Seq<char>| map_view(m).contains_key(k) <==> exists|i: int| 0 <= i < m.len() && (#[trigger] m[i]).0@ == k,
        keys_increasing(m) ==> forall|i: int| 0 <= i < m.len() ==> map_view(m)[(#[trigger] m[i]).0@] == m[i].1,
    decreases m.len(),
{
    if m.len() > 0 {
        let p = m.drop_last();
        lemma_map_view(p);
        assert(map_view(m) == map_view(p).insert(m.last().0@, m.last().1));
        assert forall|k: Seq<char>| map_view(m).contains_key(k) <==> exists|i: int| 0 <= i < m.len() && (#[trigger] m[i]).0@ == k by {
            if map_view(m).contains_key(k) {
                if k == m.last().0@ {
                    assert(m[m.len() - 1].0@ == k);
                } else {
                    assert(map_view(p).contains_key(k));
                    assert(exists|i: int| 0 <= i < p.len() && (#[trigger] p[i]).0@ == k);
                    let i = choose|i: int| 0 <= i < p.len() && (#[trigger] p[i]).0@ == k;
                    assert(m[i] == p[i]);
                }
            }
            if exists|i: int| 0 <= i < m.len() && (#[trigger] m[i]).0@ == k {
                let i = choose|i: int| 0 <= i < m.len() && (#[trigger] m[i]).0@ == k;
                if i < m.len() - 1 {
                    assert(p[i] == m[i]);
                    assert(map_view(p).contains_key(k));
                }
            }
        }
        if keys_increasing(m) {
            assert(keys_increasing(p)) by {
                assert forall|i: int, j: int| 0 <= i < j < p.len() implies lex_lt((#[trigger] p[i]).0@, (#[trigger] p[j]).0@) by {
                    assert(p[i] == m[i] && p[j] == m[j]);
                }
            }
            assert forall|i: int| 0 <= i < m.len() implies map_view(m)[(#[trigger] m[i]).0@] == m[i].1 by {
                if i < m.len() - 1 {
                    assert(p[i] == m[i]);
                    assert(lex_lt(m[i].0@, m[m.len() - 1].0@));
                    if m[i].0@ == m.last().0@ {
                        lemma_lex_irreflexive(m[i].0@);
                    }
                }
            }
        }
    }
}

/// The map of entries with increasing keys is determined by its entries.
proof fn lemma_map_view_ext<V>(a: Seq<(String, V)>, b: Seq<(String, V)>, k: Seq<char>, v: V)
    requires
        keys_increasing(a),
        keys_increasing(b),
        forall|x: Seq<char>| #[trigger] has_key(b, x) <==> (x == k || has_key(a, x)),
        forall|i: int| 0 <= i < b.len() && (#[trigger] b[i]).0@ == k ==> b[i].1 == v,
        forall|i: int, j: int|
            0 <= i < b.len() && 0 <= j < a.len() && (#[trigger] b[i]).0@ == (#[trigger] a[j]).0@ && b[i].0@ != k
                ==> b[i].1 == a[j].1,
    ensures
        map_view(b) == map_view(a).insert(k, v),
{
    lemma_map_view(a);
    lemma_map_view(b);
    assert forall|x: Seq<char>| map_view(b).contains_key(x) implies map_view(b)[x] == map_view(a).insert(k, v)[x] by {
        let i = choose|i: int| 0 <= i < b.len() && (#[trigger] b[i]).0@ == x;
        assert(has_key(b, x));
        if x != k {
            let j = choose|j: int| 0 <= j < a.len() && (#[trigger] a[j]).0@ == x;
            assert(map_view(a)[a[j].0@] == a[j].1);
        }
        assert(map_view(b)[b[i].0@] == b[i].1);
    }
    assert forall|x: Seq<char>| map_view(b).contains_key(x) <==> map_view(a).insert(k, v).contains_key(x) by {
        if map_view(b).contains_key(x) {
            assert(has_key(b, x));
        }
        if map_view(a).insert(k, v).contains_key(x) {
            if x != k {
                assert(map_view(a).contains_key(x));
                assert(has_key(a, x));
            }
            assert(has_key(b, x));
        }
    }
    assert(map_view(b) =~= map_view(a).insert(k, v));
}

/// Sets `key` to `value`, keeping the keys in increasing order.
pub fn keyed_insert<V>(m: &mut Vec<(String, V)>, key: String, value: V)
    requires
        keys_increasing(old(m)@),
    ensures
        keys_increasing(final(m)@),
        map_view(final(m)@) == map_view(old(m)@).insert(key@, value),
{
    let ghost a = m@;
    let mut i: usize = 0;
    while i < m.len() && str_lt(m[i].0.as_str(), key.as_str())
        invariant
            m@ == a,
            keys_increasing(a),
            i <= m@.len(),
            forall|j: int| 0 <= j < i ==> lex_lt((#[trigger] a[j]).0@, key@),
        decreases m.len() - i,
    {
        i = i + 1;
    }
    proof {
        lemma_map_view(a);
    }
    if i < m.len() && crate::text::str_eq(m[i].0.as_str(), key.as_str()) {
        let ghost kv = key@;
        m.set(i, (key, value));
        let ghost b = m@;
        proof {
            assert forall|x: int, y: int| 0 <= x < y < b.len() implies lex_lt((#[trigger] b[x]).0@, (#[trigger] b[y]).0@) by {
                assert(a[x] == b[x] || x == i);
                assert(a[y] == b[y] || y == i);
                assert(b[i as int].0@ == a[i as int].0@);
                assert(lex_lt(a[x].0@, a[y].0@));
            }
            assert forall|x: Seq<char>| #[trigger] has_key(b, x) <==> (x == kv || has_key(a, x)) by {
                if exists|j: int| 0 <= j < a.len() && (#[trigger] a[j]).0@ == x {
                    let j = choose|j: int| 0 <= j < a.len() && (#[trigger] a[j]).0@ == x;
                    assert(b[j].0@ == x);
                }
                if x == kv {
                    assert(b[i as int].0@ == x);
                }
                if exists|j: int| 0 <= j < b.len() && (#[trigger] b[j]).0@ == x {
                    let j = choose|j: int| 0 <= j < b.len() && (#[trigger] b[j]).0@ == x;
                    assert(a[j].0@ == x);
                }
            }
            assert forall|x: int| 0 <= x < b.len() && (#[trigger] b[x]).0@ == kv implies b[x].1 == value by {
                if x != i {
                    assert(b[x] == a[x]);
                    if x < i {
                        assert(lex_lt(a[x].0@, kv));
                        lemma_lex_irreflexive(kv);
                    } else {
                        assert(lex_lt(a[i as int].0@, a[x].0@));
                        lemma_lex_irreflexive(kv);
                    }
                }
            }
            assert forall|x: int, y: int|
                0 <= x < b.len() && 0 <= y < a.len() && (#[trigger] b[x]).0@ == (#[trigger] a[y]).0@ && b[x].0@ != kv
                    implies b[x].1 == a[y].1 by {
                assert(x != i);
                assert(b[x] == a[x]);
                if x != y {
                    if x < y {
                        assert(lex_lt(a[x].0@, a[y].0@));
                    } else {
                        assert(lex_lt(a[y].0@, a[x].0@));
                    }
                    lemma_lex_irreflexive(a[x].0@);
                }
            }
            lemma_map_view_ext(a, b, kv, value);
        }
    } else {
        let ghost kv = key@;
        proof {
            if i < a.len() {
                lemma_lex_total(a[i as int].0@, kv);
            }
        }
        m.insert(i, (key, value));
        let ghost b = m@;
        proof {
            assert forall|x: int, y: int| 0 <= x < y < b.len() implies lex_lt((#[trigger] b[x]).0@, (#[trigger] b[y]).0@) by {
                if y < i {
                    assert(b[x] == a[x] && b[y] == a[y]);
                } else if y == i {
                    assert(b[x] == a[x]);
                } else if x == i {
                    assert(b[y] == a[y - 1]);
                    if y - 1 > i {
                        assert(lex_lt(a[i as int].0@, a[y - 1].0@));
                        lemma_lex_transitive(kv, a[i as int].0@, a[y - 1].0@);
                    }
                } else if x < i {
                    assert(b[x] == a[x] && b[y] == a[y - 1]);
                    assert(lex_lt(a[x].0@, kv));
                    assert(lex_lt(kv, a[i as int].0@));
                    lemma_lex_transitive(a[x].0@, kv, a[i as int].0@);
                    if y - 1 > i {
                        assert(lex_lt(a[i as int].0@, a[y - 1].0@));
                        lemma_lex_transitive(a[x].0@, a[i as int].0@, a[y - 1].0@);
                    }
                } else {
                    assert(b[x] == a[x - 1] && b[y] == a[y - 1]);
                }
            }
            assert forall|x: Seq<char>| #[trigger] has_key(b, x) <==> (x == kv || has_key(a, x)) by {
                if exists|j: int| 0 <= j < a.len() && (#[trigger] a[j]).0@ == x {
                    let j = choose|j: int| 0 <= j < a.len() && (#[trigger] a[j]).0@ == x;
                    if j < i {
                        assert(b[j] == a[j]);
                    } else {
                        assert(b[j + 1] == a[j]);
                    }
                }
                if x == kv {
                    assert(b[i as int].0@ == x);
                }
                if exists|j: int| 0 <= j < b.len() && (#[trigger] b[j]).0@ == x {
                    let j = choose|j: int| 0 <= j < b.len() && (#[trigger] b[j]).0@ == x;
                    if j < i {
                        assert(a[j] == b[j]);
                    } else if j > i {
                        assert(a[j - 1] == b[j]);
                    }
                }
            }
            assert forall|x: int| 0 <= x < b.len() && (#[trigger] b[x]).0@ == kv implies b[x].1 == value by {
                if x != i {
                    lemma_lex_irreflexive(kv);
                    if x < i {
                        assert(b[x] == a[x]);
                        assert(lex_lt(a[x].0@, kv));
                    } else {
                        assert(b[x] == a[x - 1]);
                        assert(lex_lt(kv, a[i as int].0@));
                        if x - 1 > i {
                            assert(lex_lt(a[i as int].0@, a[x - 1].0@));
                            lemma_lex_transitive(kv, a[i as int].0@, a[x - 1].0@);
                        }
                    }
                }
            }
            assert forall|x: int, y: int|
                0 <= x < b.len() && 0 <= y < a.len() && (#[trigger] b[x]).0@ == (#[trigger] a[y]).0@ && b[x].0@ != kv
                    implies b[x].1 == a[y].1 by {
                let xa = if x < i { x } else { x - 1 };
                assert(x != i);
                assert(b[x] == a[xa]);
                if xa != y {
                    if xa < y {
                        assert(lex_lt(a[xa].0@, a[y].0@));
                    } else {
                        assert(lex_lt(a[y].0@, a[xa].0@));
                    }
                    lemma_lex_irreflexive(a[xa].0@);
                }
            }
            lemma_map_view_ext(a, b, kv, value);
        }
    }
}

/// The last entry for a key gives the map's value for it.
pub proof fn lemma_map_view_last<V>(m: Seq<(String, V)>, i: int)
    requires
        0 <= i < m.len(),
        forall|j: int| i < j < m.len() ==> (#[trigger] m[j]).0@ != m[i].0@,
    ensures
        map_view(m).contains_key(m[i].0@),
        map_view(m)[m[i].0@] == m[i].1,
    decreases m.len(),
{
    if i < m.len() - 1 {
        let p = m.drop_last();
        assert forall|j: int| i < j < p.len() implies (#[trigger] p[j]).0@ != p[i].0@ by {
            assert(p[j] == m[j]);
        }
        lemma_map_view_last(p, i);
        assert(m[m.len() - 1].0@ != m[i].0@);
    }
}

/// The entry for `key`, if any: the last one, as in `map_view`.
pub fn keyed_get<'a, V>(m: &'a Vec<(String, V)>, key: &str) -> (out: Option<&'a V>)
    ensures
        match out {
            Some(v) => map_view(m@).contains_key(key@) && map_view(m@)[key@] == *v,
            None => !map_view(m@).contains_key(key@),
        },
{
    let mut i: usize = m.len();
    while i > 0
        invariant
            i <= m@.len(),
            forall|j: int| i <= j < m@.len() ==> (#[trigger] m@[j]).0@ != key@,
        decreases i,
    {
        if crate::text::str_eq(m[i - 1].0.as_str(), key) {
            proof {
                lemma_map_view_last(m@, i - 1);
            }
            return Some(&m[i - 1].1);
        }
        i = i - 1;
    }
    proof {
        lemma_map_view(m@);
    }
    None
}

} // verus!
