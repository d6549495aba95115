//! Edge-list graphs: a database of one binary relation `E`, and triangle queries computed
//! by binary joins, to compare the worst-case optimal join against.
use vstd::prelude::*;
use std::collections::{HashMap, HashSet};
use crate::value::Value;
use crate::vec_db::VecDb;
use crate::sorting::{rows_of, rows_sorted, pairs_strictly_sorted, pairs_sorted, pair_lt, sort_rows, sort_pairs, lemma_same_multiset};

verus! {

broadcast use vstd::std_specs::hash::group_hash_axioms;

/// One row `[a, b]` per edge `(a, b)`.
pub open spec fn edge_rows(edges: Seq<(Value, Value)>) -> Seq<Seq<Value>> {
    edges.map_values(|e: (Value, Value)| seq![e.0, e.1])
}

/// A database with the single binary relation `E` holding the edges.
pub fn edge_db(edges: &[(Value, Value)]) -> (db: VecDb)
    ensures
        db@ == Map::<Seq<char>, (nat, Seq<Seq<Value>>)>::empty().insert("E"@, (2nat, edge_rows(edges@))),
{
    let mut rows: Vec<Vec<Value>> = Vec::new();
    let mut i: usize = 0;
    while i < edges.len()
        invariant
            i <= edges@.len(),
            rows@.map_values(|r: Vec<Value>| r@) == edge_rows(edges@.take(i as int)),
            forall|k: int| 0 <= k < rows@.len() ==> (#[trigger] rows@[k])@.len() == 2,
        decreases edges@.len() - i,
    {
        let (a, b) = edges[i];
        let ghost r0 = rows@.map_values(|r: Vec<Value>| r@);
        let mut row: Vec<Value> = Vec::new();
        row.push(a);
        row.push(b);
        rows.push(row);
        proof {
            assert(row@ =~= seq![a, b]);
            assert(rows@.map_values(|r: Vec<Value>| r@) =~= r0.push(seq![a, b]));
            assert(edge_rows(edges@.take(i as int + 1)) =~= edge_rows(edges@.take(i as int)).push(seq![a, b]));
        }
        i = i + 1;
    }
    assert(edges@.take(edges@.len() as int) =~= edges@);
    VecDb::new().rel("E", 2, rows)
}

/// The targets of the edges out of `a`, in edge order.
pub open spec fn succ(edges: Seq<(Value, Value)>, a: Value) -> Seq<Value>
    decreases edges.len(),
{
    if edges.len() == 0 {
        Seq::empty()
    } else if edges.last().0 == a {
        succ(edges.drop_last(), a).push(edges.last().1)
    } else {
        succ(edges.drop_last(), a)
    }
}

/// The edge that closes the triangle `x -> y -> z`: `(z, x)` for a directed cycle,
/// `(x, z)` for the undirected (low to high) orientation.
pub open spec fn closing_edge(x: Value, z: Value, directed: bool) -> (Value, Value) {
    if directed {
        (z, x)
    } else {
        (x, z)
    }
}

/// The rows `[x, y, z]` for `z` in `zs`, in order, whose closing edge is an edge.
pub open spec fn closings(edges: Seq<(Value, Value)>, x: Value, y: Value, zs: Seq<Value>, directed: bool) -> Seq<Seq<Value>>
    decreases zs.len(),
{
    if zs.len() == 0 {
        Seq::empty()
    } else if edges.contains(closing_edge(x, zs.last(), directed)) {
        closings(edges, x, y, zs.drop_last(), directed).push(seq![x, y, zs.last()])
    } else {
        closings(edges, x, y, zs.drop_last(), directed)
    }
}

/// The triangles of the binary join, unsorted: for each of the first `n` edges `(x, y)` in
/// order, each edge `(y, z)` in order whose closing edge is an edge.
pub open spec fn triangles_upto(edges: Seq<(Value, Value)>, n: int, directed: bool) -> Seq<Seq<Value>>
    decreases n,
{
    if n <= 0 {
        Seq::empty()
    } else {
        triangles_upto(edges, n - 1, directed) + closings(
            edges,
            edges[n - 1].0,
            edges[n - 1].1,
            succ(edges, edges[n - 1].1),
            directed,
        )
    }
}

/// The edge set, kept as the set of targets of each source, holds `(a, b)`.
spec fn set_has(m: Map<Value, HashSet<Value>>, a: Value, b: Value) -> bool {
    m.contains_key(a) && m[a]@.contains(b)
}

/// Whether `(a, b)` is an edge of the set.
fn has_edge(set: &HashMap<Value, HashSet<Value>>, a: Value, b: Value) -> (r: bool)
    ensures
        r == set_has(set@, a, b),
{
    match set.get(&a) {
        Some(s) => s.contains(&b),
        None => false,
    }
}

/// The triangles of the binary join `E(x, y) E(y, z)` filtered by the closing edge, sorted.
fn binary_triangles(edges: &[(Value, Value)], directed: bool) -> (out: Vec<Vec<Value>>)
    ensures
        rows_sorted(rows_of(out@)),
        rows_of(out@).to_multiset() == triangles_upto(edges@, edges@.len() as int, directed).to_multiset(),
{
    let ghost es = edges@;
    let n = edges.len();
    let mut edge_set: HashMap<Value, HashSet<Value>> = HashMap::new();
    let mut out: HashMap<Value, Vec<Value>> = HashMap::new();
    let mut i: usize = 0;
    while i < n
        invariant
            i <= n,
            n == es.len(),
            es == edges@,
            forall|a: Value, b: Value| #[trigger] set_has(edge_set@, a, b) == es.take(i as int).contains((a, b)),
            forall|a: Value| #[trigger] out@.contains_key(a) ==> out@[a]@ == succ(es.take(i as int), a),
            forall|a: Value| !(#[trigger] out@.contains_key(a)) ==> succ(es.take(i as int), a) == Seq::<Value>::empty(),
        decreases n - i,
    {
        let (a, b) = edges[i];
        let ghost t = es.take(i as int + 1);
        proof {
            assert(t.drop_last() =~= es.take(i as int));
            assert(t.last() == (a, b));
        }
        let ghost set0 = edge_set@;
        let mut s = match edge_set.remove(&a) {
            Some(s) => s,
            None => HashSet::new(),
        };
        let ghost s0 = s@;
        let ghost set1 = edge_set@;
        proof {
            if set0.contains_key(a) {
                assert(s0 == set0[a]@);
            } else {
                assert(s0 == Set::<Value>::empty());
            }
            assert(set1 == set0.remove(a));
        }
        s.insert(b);
        assert(s@ == s0.insert(b));
        edge_set.insert(a, s);
        assert(edge_set@ == set1.insert(a, s));
        let ghost out0 = out@;
        let mut v = match out.remove(&a) {
            Some(v) => v,
            None => Vec::new(),
        };
        v.push(b);
        out.insert(a, v);
        proof {
            assert forall|a2: Value, b2: Value| #[trigger] set_has(edge_set@, a2, b2) == t.contains((a2, b2)) by {
                assert(set_has(set0, a2, b2) == es.take(i as int).contains((a2, b2)));
                if t.contains((a2, b2)) {
                    let k = choose|k: int| 0 <= k < t.len() && t[k] == (a2, b2);
                    if k < i {
                        assert(es.take(i as int)[k] == (a2, b2));
                    }
                }
                if es.take(i as int).contains((a2, b2)) {
                    let k = choose|k: int| 0 <= k < i && es.take(i as int)[k] == (a2, b2);
                    assert(t[k] == (a2, b2));
                }
                if a2 == a && b2 == b {
                    assert(t[i as int] == (a, b));
                }
                if a2 != a {
                    assert(edge_set@.contains_key(a2) == set0.contains_key(a2));
                    if set0.contains_key(a2) {
                        assert(edge_set@[a2] == set0[a2]);
                    }
                } else {
                    assert(edge_set@[a2]@ == s0.insert(b));
                    assert(s0.contains(b2) == set_has(set0, a2, b2));
                }
            }
            assert forall|a2: Value| #[trigger] out@.contains_key(a2) implies out@[a2]@ == succ(t, a2) by {
                if a2 != a {
                    assert(out0.contains_key(a2));
                }
            }
        }
        i = i + 1;
    }
    assert(es.take(n as int) =~= es);
    let mut tri: Vec<Vec<Value>> = Vec::new();
    let mut i: usize = 0;
    while i < n
        invariant
            i <= n,
            n == es.len(),
            es == edges@,
            forall|a: Value, b: Value| #[trigger] set_has(edge_set@, a, b) == es.contains((a, b)),
            forall|a: Value| #[trigger] out@.contains_key(a) ==> out@[a]@ == succ(es, a),
            forall|a: Value| !(#[trigger] out@.contains_key(a)) ==> succ(es, a) == Seq::<Value>::empty(),
            rows_of(tri@) == triangles_upto(es, i as int, directed),
        decreases n - i,
    {
        let (x, y) = edges[i];
        let ghost base = rows_of(tri@);
        let ghost zs_spec = succ(es, y);
        match out.get(&y) {
            Some(zs) => {
                let mut j: usize = 0;
                while j < zs.len()
                    invariant
                        j <= zs@.len(),
                        zs@ == zs_spec,
                        forall|a: Value, b: Value| #[trigger] set_has(edge_set@, a, b) == es.contains((a, b)),
                        rows_of(tri@) == base + closings(es, x, y, zs_spec.take(j as int), directed),
                    decreases zs@.len() - j,
                {
                    let z = zs[j];
                    let ghost r0 = rows_of(tri@);
                    let closes = if directed { has_edge(&edge_set, z, x) } else { has_edge(&edge_set, x, z) };
                    proof {
                        let tz = zs_spec.take(j as int + 1);
                        assert(tz.drop_last() =~= zs_spec.take(j as int));
                        assert(tz.last() == z);
                    }
                    assert(closes == es.contains(closing_edge(x, z, directed)));
                    if closes {
                        let mut row: Vec<Value> = Vec::new();
                        row.push(x);
                        row.push(y);
                        row.push(z);
                        tri.push(row);
                        assert(row@ =~= seq![x, y, z]);
                        assert(rows_of(tri@) =~= r0.push(seq![x, y, z]));
                    }
                    proof {
                        let tz = zs_spec.take(j as int + 1);
                        let c0 = closings(es, x, y, zs_spec.take(j as int), directed);
                        if closes {
                            assert(base + c0.push(seq![x, y, z]) =~= (base + c0).push(seq![x, y, z]));
                        }
                    }
                    j = j + 1;
                }
                assert(zs_spec.take(zs@.len() as int) =~= zs_spec);
            },
            None => {
                assert(closings(es, x, y, zs_spec, directed) =~= Seq::<Seq<Value>>::empty());
            },
        }
        assert(rows_of(tri@) =~= triangles_upto(es, i as int + 1, directed));
        i = i + 1;
    }
    let ghost before = rows_of(tri@);
    sort_rows(&mut tri);
    proof {
        lemma_same_multiset(before, rows_of(tri@));
    }
    tri
}

/// The directed triangles `E(x, y) E(y, z) E(z, x)` by a binary join of `E(x, y) E(y, z)`
/// filtered by `E(z, x)`, sorted. An edge listed twice gives its triangles twice.
pub fn binary_triangles_directed(edges: &[(Value, Value)]) -> (out: Vec<Vec<Value>>)
    ensures
        rows_sorted(rows_of(out@)),
        rows_of(out@).to_multiset() == triangles_upto(edges@, edges@.len() as int, true).to_multiset(),
        rows_of(out@).to_set() == triangle_set(edges@, true),
        edges@.no_duplicates() ==> rows_of(out@).no_duplicates(),
{
    let out = binary_triangles(edges, true);
    proof {
        lemma_triangles(edges@, true);
        crate::sorting::lemma_same_multiset(triangles_upto(edges@, edges@.len() as int, true), rows_of(out@));
    }
    out
}

/// The triangles `a -> b -> c` with `a -> c` of a low-to-high edge list, by a binary join of
/// `E(a, b) E(b, c)` filtered by `E(a, c)`, sorted.
pub fn binary_triangles_undirected(edges: &[(Value, Value)]) -> (out: Vec<Vec<Value>>)
    ensures
        rows_sorted(rows_of(out@)),
        rows_of(out@).to_multiset() == triangles_upto(edges@, edges@.len() as int, false).to_multiset(),
        rows_of(out@).to_set() == triangle_set(edges@, false),
        edges@.no_duplicates() ==> rows_of(out@).no_duplicates(),
{
    let out = binary_triangles(edges, false);
    proof {
        lemma_triangles(edges@, false);
        crate::sorting::lemma_same_multiset(triangles_upto(edges@, edges@.len() as int, false), rows_of(out@));
    }
    out
}

/// The edge `(a, b)` oriented from its lower to its higher end.
pub open spec fn low_high(e: (Value, Value)) -> (Value, Value) {
    if e.0 < e.1 {
        e
    } else {
        (e.1, e.0)
    }
}

/// The undirected simple graph of an edge list: each edge that is not a self-loop,
/// oriented from low to high.
pub open spec fn low_high_edges(edges: Seq<(Value, Value)>) -> Set<(Value, Value)> {
    Set::new(|p: (Value, Value)| exists|i: int| 0 <= i < edges.len() && edges[i].0 != edges[i].1 && p == low_high(#[trigger] edges[i]))
}

/// Normalizes an edge list into an undirected simple graph: drops self-loops, orients every
/// edge from low to high node id, sorts, and removes duplicates. Every undirected triangle
/// then appears exactly once as `a -> b -> c` with `a -> c`.
pub fn to_low_high(edges: &[(Value, Value)]) -> (v: Vec<(Value, Value)>)
    ensures
        pairs_strictly_sorted(v@),
        v@.to_set() == low_high_edges(edges@),
        forall|k: int| 0 <= k < v@.len() ==> (#[trigger] v@[k]).0 < v@[k].1,
{
    let mut w: Vec<(Value, Value)> = Vec::new();
    let mut i: usize = 0;
    while i < edges.len()
        invariant
            i <= edges@.len(),
            w@.to_set() == low_high_edges(edges@.take(i as int)),
        decreases edges@.len() - i,
    {
        let (a, b) = edges[i];
        let ghost w0 = w@;
        if a != b {
            if a < b {
                w.push((a, b));
            } else {
                w.push((b, a));
            }
        }
        proof {
            let t = edges@.take(i as int + 1);
            assert forall|p: (Value, Value)| w@.to_set().contains(p) == low_high_edges(t).contains(p) by {
                if w@.contains(p) {
                    let k = choose|k: int| 0 <= k < w@.len() && w@[k] == p;
                    if k < w0.len() {
                        assert(w0[k] == p);
                        assert(w0.to_set().contains(p));
                        assert(low_high_edges(edges@.take(i as int)).contains(p));
                        let m = choose|m: int| 0 <= m < i && edges@.take(i as int)[m].0 != edges@.take(i as int)[m].1
                            && p == low_high(#[trigger] edges@.take(i as int)[m]);
                        assert(t[m] == edges@.take(i as int)[m]);
                    } else {
                        assert(t[i as int] == (a, b));
                    }
                }
                if low_high_edges(t).contains(p) {
                    let m = choose|m: int| 0 <= m < t.len() && t[m].0 != t[m].1 && p == low_high(#[trigger] t[m]);
                    if m < i {
                        assert(edges@.take(i as int)[m] == t[m]);
                        assert(low_high_edges(edges@.take(i as int)).contains(p));
                        assert(w0.to_set().contains(p));
                        let k = choose|k: int| 0 <= k < w0.len() && w0[k] == p;
                        assert(w@[k] == p);
                    } else {
                        assert(t[m] == (a, b));
                        assert(w@[w0.len() as int] == p);
                    }
                }
            }
            assert(w@.to_set() =~= low_high_edges(t));
        }
        i = i + 1;
    }
    assert(edges@.take(edges@.len() as int) =~= edges@);
    let ghost before = w@;
    sort_pairs(&mut w);
    proof {
        lemma_same_multiset(before, w@);
    }
    let v = dedup_edges(&w);
    proof {
        assert forall|k: int| 0 <= k < v@.len() implies (#[trigger] v@[k]).0 < v@[k].1 by {
            assert(v@.to_set().contains(v@[k]));
            assert(low_high_edges(edges@).contains(v@[k]));
        }
    }
    v
}

/// Whether the edges ascend (by source, then target), repeats allowed.
pub fn edges_sorted(edges: &[(Value, Value)]) -> (b: bool)
    ensures
        b == pairs_sorted(edges@),
{
    if edges.len() <= 1 {
        return true;
    }
    let mut k: usize = 1;
    while k < edges.len()
        invariant
            1 <= k <= edges@.len(),
            pairs_sorted(edges@.take(k as int)),
        decreases edges@.len() - k,
    {
        let (a, b) = edges[k - 1];
        let (c, d) = edges[k];
        if c < a || (c == a && d < b) {
            assert(pair_lt(edges@[k as int], edges@[k - 1]));
            assert(edges@.take(k as int + 1)[k - 1] == edges@[k - 1]);
            assert(edges@.take(k as int + 1)[k as int] == edges@[k as int]);
            return false;
        }
        proof {
            let t = edges@.take(k as int + 1);
            assert forall|i: int, j: int| 0 <= i < j < t.len() implies !pair_lt(#[trigger] t[j], #[trigger] t[i]) by {
                if j < k {
                    assert(t[i] == edges@.take(k as int)[i]);
                    assert(t[j] == edges@.take(k as int)[j]);
                } else if i < k - 1 {
                    assert(!pair_lt(edges@.take(k as int)[k - 1], edges@.take(k as int)[i]));
                    assert(edges@.take(k as int)[k - 1] == edges@[k - 1]);
                    assert(t[i] == edges@.take(k as int)[i]);
                }
            }
        }
        k = k + 1;
    }
    assert(edges@.take(edges@.len() as int) =~= edges@);
    true
}

/// Sorts the edges ascending, by source then target.
pub fn sort_edges(edges: &mut Vec<(Value, Value)>)
    ensures
        pairs_sorted(final(edges)@),
        final(edges)@.to_multiset() == old(edges)@.to_multiset(),
{
    sort_pairs(edges);
}

/// The sorted edges without repeats: strictly ascending, with the same edges.
pub fn dedup_edges(w: &Vec<(Value, Value)>) -> (v: Vec<(Value, Value)>)
    requires
        pairs_sorted(w@),
    ensures
        pairs_strictly_sorted(v@),
        v@.to_set() == w@.to_set(),
{
    assert(w@.take(0) =~= Seq::<(Value, Value)>::empty());
    let mut v: Vec<(Value, Value)> = Vec::new();
    let mut k: usize = 0;
    while k < w.len()
        invariant
            k <= w@.len(),
            pairs_sorted(w@),
            pairs_strictly_sorted(v@),
            v@.to_set() == w@.take(k as int).to_set(),
            k > 0 ==> v@.len() > 0 && v@.last() == w@[k - 1],
            v@.len() <= k,
        decreases w@.len() - k,
    {
        let p = w[k];
        let ghost v0 = v@;
        let is_new = v.len() == 0 || v[v.len() - 1].0 != p.0 || v[v.len() - 1].1 != p.1;
        if is_new {
            v.push(p);
        }
        proof {
            let t = w@.take(k as int + 1);
            assert(t =~= w@.take(k as int).push(p));
            if is_new {
                if v0.len() > 0 {
                    assert(!pair_lt(w@[k as int], w@[k - 1]));
                    assert(pair_lt(v0.last(), p));
                    assert forall|a: int, b: int| 0 <= a < b < v@.len() implies pair_lt(#[trigger] v@[a], #[trigger] v@[b]) by {
                        if b == v0.len() {
                            assert(a == v0.len() - 1 || pair_lt(v0[a], v0[v0.len() - 1]));
                        }
                    }
                }
                assert forall|q: (Value, Value)| v@.to_set().contains(q) == t.to_set().contains(q) by {
                    if v@.contains(q) && q != p {
                        let n = choose|n: int| 0 <= n < v@.len() && v@[n] == q;
                        assert(v0[n] == q);
                        assert(v0.to_set().contains(q));
                        let m = choose|m: int| 0 <= m < k && w@.take(k as int)[m] == q;
                        assert(t[m] == q);
                    }
                    if t.contains(q) && q != p {
                        let m = choose|m: int| 0 <= m < t.len() && t[m] == q;
                        assert(w@.take(k as int)[m] == q);
                        assert(w@.take(k as int).to_set().contains(q));
                        let n = choose|n: int| 0 <= n < v0.len() && v0[n] == q;
                        assert(v@[n] == q);
                    }
                    if q == p {
                        assert(v@[v@.len() - 1] == p);
                        assert(t[k as int] == p);
                    }
                }
            } else {
                assert forall|q: (Value, Value)| v@.to_set().contains(q) == t.to_set().contains(q) by {
                    if t.contains(q) {
                        let m = choose|m: int| 0 <= m < t.len() && t[m] == q;
                        if m < k {
                            assert(w@.take(k as int)[m] == q);
                            assert(w@.take(k as int).to_set().contains(q));
                        } else {
                            assert(v@[v@.len() - 1] == q);
                        }
                    }
                    if v@.contains(q) {
                        assert(v0.to_set().contains(q));
                        let m = choose|m: int| 0 <= m < k && w@.take(k as int)[m] == q;
                        assert(t[m] == q);
                    }
                }
            }
            assert(v@.to_set() =~= t.to_set());
        }
        k = k + 1;
    }
    assert(w@.take(w@.len() as int) =~= w@);
    v
}

/// The targets of the edges out of `a` are those `b` with an edge `(a, b)`; they are
/// distinct when the edges are.
proof fn lemma_succ(edges: Seq<(Value, Value)>, a: Value)
    ensures
        forall|b: Value| succ(edges, a).contains(b) <==> edges.contains((a, b)),
        edges.no_duplicates() ==> succ(edges, a).no_duplicates(),
    decreases edges.len(),
{
    if edges.len() > 0 {
        let init = edges.drop_last();
        lemma_succ(init, a);
        let s0 = succ(init, a);
        let s1 = succ(edges, a);
        assert forall|b: Value| s1.contains(b) <==> edges.contains((a, b)) by {
            if edges.contains((a, b)) {
                let k = choose|k: int| 0 <= k < edges.len() && edges[k] == (a, b);
                if k < init.len() {
                    assert(init[k] == (a, b));
                    assert(s0.contains(b));
                    let m = choose|m: int| 0 <= m < s0.len() && s0[m] == b;
                    if edges.last().0 == a {
                        assert(s1[m] == b);
                    }
                } else {
                    assert(s1[s1.len() - 1] == b);
                }
            }
            if s1.contains(b) {
                let m = choose|m: int| 0 <= m < s1.len() && s1[m] == b;
                if m < s0.len() {
                    assert(s0[m] == b);
                    assert(s0.contains(b));
                    assert(init.contains((a, b)));
                    let k = choose|k: int| 0 <= k < init.len() && init[k] == (a, b);
                    assert(edges[k] == (a, b));
                } else {
                    assert(edges[edges.len() - 1] == (a, b));
                }
            }
        }
        if edges.no_duplicates() {
            assert(init.no_duplicates()) by {
                assert forall|i: int, j: int| 0 <= i < j < init.len() implies init[i] != init[j] by {
                    assert(init[i] == edges[i] && init[j] == edges[j]);
                }
            }
            if edges.last().0 == a {
                assert(!s0.contains(edges.last().1)) by {
                    if s0.contains(edges.last().1) {
                        assert(init.contains((a, edges.last().1)));
                        let k = choose|k: int| 0 <= k < init.len() && init[k] == (a, edges.last().1);
                        assert(edges[k] == edges[edges.len() - 1]);
                    }
                }
                assert forall|i: int, j: int| 0 <= i < j < s1.len() implies s1[i] != s1[j] by {
                    if j == s0.len() {
                        assert(s0.contains(s0[i]));
                    }
                }
            }
        }
    }
}

/// The rows of `closings` are `[x, y, z]` for the `z` of `zs` whose closing edge is an
/// edge; distinct `zs` give distinct rows.
proof fn lemma_closings(edges: Seq<(Value, Value)>, x: Value, y: Value, zs: Seq<Value>, directed: bool)
    ensures
        forall|r: Seq<Value>| closings(edges, x, y, zs, directed).contains(r) <==> exists|z: Value|
            #![trigger zs.contains(z)] zs.contains(z) && edges.contains(closing_edge(x, z, directed)) && r == seq![x, y, z],
        zs.no_duplicates() ==> closings(edges, x, y, zs, directed).no_duplicates(),
    decreases zs.len(),
{
    if zs.len() > 0 {
        let init = zs.drop_last();
        lemma_closings(edges, x, y, init, directed);
        let c0 = closings(edges, x, y, init, directed);
        let c1 = closings(edges, x, y, zs, directed);
        let z = zs.last();
        assert forall|r: Seq<Value>| c1.contains(r) <==> exists|z2: Value|
            #![trigger zs.contains(z2)] zs.contains(z2) && edges.contains(closing_edge(x, z2, directed)) && r == seq![x, y, z2] by {
            if c1.contains(r) {
                let m = choose|m: int| 0 <= m < c1.len() && c1[m] == r;
                if m < c0.len() {
                    assert(c0[m] == r);
                    assert(c0.contains(r));
                    let z2 = choose|z2: Value| #![trigger init.contains(z2)] init.contains(z2) && edges.contains(closing_edge(x, z2, directed)) && r == seq![x, y, z2];
                    let j = choose|j: int| 0 <= j < init.len() && init[j] == z2;
                    assert(zs[j] == z2);
                    assert(zs.contains(z2));
                } else {
                    assert(zs[zs.len() - 1] == z);
                    assert(zs.contains(z));
                }
            }
            if exists|z2: Value| #![trigger zs.contains(z2)] zs.contains(z2) && edges.contains(closing_edge(x, z2, directed)) && r == seq![x, y, z2] {
                let z2 = choose|z2: Value| #![trigger zs.contains(z2)] zs.contains(z2) && edges.contains(closing_edge(x, z2, directed)) && r == seq![x, y, z2];
                let j = choose|j: int| 0 <= j < zs.len() && zs[j] == z2;
                if j < init.len() {
                    assert(init[j] == z2);
                    assert(init.contains(z2));
                    assert(c0.contains(r));
                    let m = choose|m: int| 0 <= m < c0.len() && c0[m] == r;
                    assert(c1[m] == r);
                } else {
                    assert(c1[c1.len() - 1] == r);
                }
            }
        }
        if zs.no_duplicates() {
            assert(init.no_duplicates()) by {
                assert forall|i: int, j: int| 0 <= i < j < init.len() implies init[i] != init[j] by {
                    assert(init[i] == zs[i] && init[j] == zs[j]);
                }
            }
            if edges.contains(closing_edge(x, z, directed)) {
                assert forall|i: int, j: int| 0 <= i < j < c1.len() implies c1[i] != c1[j] by {
                    if j == c0.len() {
                        assert(c0.contains(c0[i]));
                        let z2 = choose|z2: Value| #![trigger init.contains(z2)] init.contains(z2) && edges.contains(closing_edge(x, z2, directed)) && c0[i] == seq![x, y, z2];
                        assert(c0[i][2] == z2);
                        assert(c1[j][2] == z);
                        let m = choose|m: int| 0 <= m < init.len() && init[m] == z2;
                        assert(zs[m] == z2);
                    }
                }
            }
        }
    }
}

/// The binary join's rows from the first `n` edges: a row comes from some edge `(x, y)`
/// among them; rows from different edges differ when the edges do.
proof fn lemma_triangles_upto(edges: Seq<(Value, Value)>, n: int, directed: bool)
    requires
        0 <= n <= edges.len(),
    ensures
        forall|r: Seq<Value>| triangles_upto(edges, n, directed).contains(r) <==> exists|i: int|
            0 <= i < n && #[trigger] closings(edges, edges[i].0, edges[i].1, succ(edges, edges[i].1), directed).contains(r),
        edges.no_duplicates() ==> triangles_upto(edges, n, directed).no_duplicates(),
    decreases n,
{
    if n > 0 {
        lemma_triangles_upto(edges, n - 1, directed);
        let t0 = triangles_upto(edges, n - 1, directed);
        let (x, y) = edges[n - 1];
        let c = closings(edges, x, y, succ(edges, y), directed);
        let t1 = triangles_upto(edges, n, directed);
        assert(t1 == t0 + c);
        lemma_closings(edges, x, y, succ(edges, y), directed);
        assert forall|r: Seq<Value>| t1.contains(r) <==> exists|i: int|
            0 <= i < n && #[trigger] closings(edges, edges[i].0, edges[i].1, succ(edges, edges[i].1), directed).contains(r) by {
            if t1.contains(r) {
                let m = choose|m: int| 0 <= m < t1.len() && t1[m] == r;
                if m < t0.len() {
                    assert(t0[m] == r);
                    assert(t0.contains(r));
                } else {
                    assert(c[m - t0.len()] == r);
                    assert(c.contains(r));
                }
            }
            if exists|i: int| 0 <= i < n && #[trigger] closings(edges, edges[i].0, edges[i].1, succ(edges, edges[i].1), directed).contains(r) {
                let i = choose|i: int| 0 <= i < n && #[trigger] closings(edges, edges[i].0, edges[i].1, succ(edges, edges[i].1), directed).contains(r);
                if i < n - 1 {
                    assert(t0.contains(r));
                    let m = choose|m: int| 0 <= m < t0.len() && t0[m] == r;
                    assert(t1[m] == r);
                } else {
                    let m = choose|m: int| 0 <= m < c.len() && c[m] == r;
                    assert(t1[t0.len() + m] == r);
                }
            }
        }
        if edges.no_duplicates() {
            lemma_succ(edges, y);
            assert forall|r: Seq<Value>| t0.contains(r) implies !c.contains(r) by {
                let i = choose|i: int| 0 <= i < n - 1 && #[trigger] closings(edges, edges[i].0, edges[i].1, succ(edges, edges[i].1), directed).contains(r);
                lemma_closings(edges, edges[i].0, edges[i].1, succ(edges, edges[i].1), directed);
                if c.contains(r) {
                    assert(r[0] == edges[i].0 && r[1] == edges[i].1);
                    assert(r[0] == x && r[1] == y);
                    assert(edges[i] == edges[n - 1]);
                }
            }
            crate::join::lemma_no_dup_append(t0, c);
        }
    }
}

/// The binary join finds each undirected triangle exactly once on a normalized edge list
/// (each edge oriented from low to high, strictly sorted, as `to_low_high` returns): its
/// rows are the `[a, b, c]` with `a < b < c` and edges `a -> b`, `b -> c`, `a -> c`, none
/// twice.
pub proof fn lemma_undirected_triangles_once(edges: Seq<(Value, Value)>)
    requires
        pairs_strictly_sorted(edges),
        forall|k: int| 0 <= k < edges.len() ==> (#[trigger] edges[k]).0 < edges[k].1,
    ensures
        triangles_upto(edges, edges.len() as int, false).no_duplicates(),
        triangles_upto(edges, edges.len() as int, false).to_set() == Set::new(
            |r: Seq<Value>|
                exists|a: Value, b: Value, c: Value|
                    #![trigger edges.contains((a, b)), edges.contains((b, c)), edges.contains((a, c))]
                    a < b < c && edges.contains((a, b)) && edges.contains((b, c)) && edges.contains((a, c)) && r == seq![a, b, c],
        ),
{
    let n = edges.len() as int;
    assert(edges.no_duplicates()) by {
        assert forall|i: int, j: int| 0 <= i < j < edges.len() implies edges[i] != edges[j] by {
            assert(pair_lt(edges[i], edges[j]));
        }
    }
    lemma_triangles_upto(edges, n, false);
    let t = triangles_upto(edges, n, false);
    let want = Set::new(
        |r: Seq<Value>|
            exists|a: Value, b: Value, c: Value|
                #![trigger edges.contains((a, b)), edges.contains((b, c)), edges.contains((a, c))]
                a < b < c && edges.contains((a, b)) && edges.contains((b, c)) && edges.contains((a, c)) && r == seq![a, b, c],
    );
    assert forall|r: Seq<Value>| t.to_set().contains(r) <==> want.contains(r) by {
        if t.contains(r) {
            let i = choose|i: int| 0 <= i < n && #[trigger] closings(edges, edges[i].0, edges[i].1, succ(edges, edges[i].1), false).contains(r);
            let (x, y) = edges[i];
            lemma_closings(edges, x, y, succ(edges, y), false);
            lemma_succ(edges, y);
            let z = choose|z: Value| #![trigger succ(edges, y).contains(z)] succ(edges, y).contains(z) && edges.contains(closing_edge(x, z, false)) && r == seq![x, y, z];
            assert(edges.contains((x, y)));
            assert(edges.contains((y, z)));
            let k = choose|k: int| 0 <= k < edges.len() && edges[k] == (y, z);
            assert(edges[k].0 < edges[k].1);
            assert(x < y < z);
        }
        if want.contains(r) {
            let (a, b, c) = choose|a: Value, b: Value, c: Value|
                #![trigger edges.contains((a, b)), edges.contains((b, c)), edges.contains((a, c))]
                a < b < c && edges.contains((a, b)) && edges.contains((b, c)) && edges.contains((a, c)) && r == seq![a, b, c];
            let i = choose|i: int| 0 <= i < edges.len() && edges[i] == (a, b);
            lemma_succ(edges, b);
            lemma_closings(edges, a, b, succ(edges, b), false);
            assert(succ(edges, b).contains(c));
            assert(closings(edges, edges[i].0, edges[i].1, succ(edges, edges[i].1), false).contains(r));
        }
    }
    assert(t.to_set() =~= want);
}

/// The triangles with first edge `x -> y`, second edge `y -> z` and closing edge an edge.
pub open spec fn triangle_set(edges: Seq<(Value, Value)>, directed: bool) -> Set<Seq<Value>> {
    Set::new(
        |r: Seq<Value>|
            exists|x: Value, y: Value, z: Value|
                #![trigger edges.contains((x, y)), edges.contains((y, z)), edges.contains(closing_edge(x, z, directed))]
                edges.contains((x, y)) && edges.contains((y, z)) && edges.contains(closing_edge(x, z, directed)) && r == seq![
                    x,
                    y,
                    z,
                ],
    )
}

/// The rows of the binary join are exactly the triangles, none twice when the edges are
/// distinct.
pub proof fn lemma_triangles(edges: Seq<(Value, Value)>, directed: bool)
    ensures
        triangles_upto(edges, edges.len() as int, directed).to_set() == triangle_set(edges, directed),
        edges.no_duplicates() ==> triangles_upto(edges, edges.len() as int, directed).no_duplicates(),
{
    let n = edges.len() as int;
    lemma_triangles_upto(edges, n, directed);
    let t = triangles_upto(edges, n, directed);
    let want = triangle_set(edges, directed);
    assert forall|r: Seq<Value>| t.to_set().contains(r) <==> want.contains(r) by {
        if t.contains(r) {
            let i = choose|i: int| 0 <= i < n && #[trigger] closings(edges, edges[i].0, edges[i].1, succ(edges, edges[i].1), directed).contains(r);
            let (x, y) = edges[i];
            lemma_closings(edges, x, y, succ(edges, y), directed);
            lemma_succ(edges, y);
            let z = choose|z: Value| #![trigger succ(edges, y).contains(z)] succ(edges, y).contains(z) && edges.contains(closing_edge(x, z, directed)) && r == seq![x, y, z];
            assert(edges.contains((x, y)));
            assert(edges.contains((y, z)));
            assert(edges.contains(closing_edge(x, z, directed)));
        }
        if want.contains(r) {
            let (x, y, z) = choose|x: Value, y: Value, z: Value|
                #![trigger edges.contains((x, y)), edges.contains((y, z)), edges.contains(closing_edge(x, z, directed))]
                edges.contains((x, y)) && edges.contains((y, z)) && edges.contains(closing_edge(x, z, directed)) && r == seq![x, y, z];
            let i = choose|i: int| 0 <= i < edges.len() && edges[i] == (x, y);
            lemma_succ(edges, y);
            lemma_closings(edges, x, y, succ(edges, y), directed);
            assert(succ(edges, y).contains(z));
            assert(closings(edges, edges[i].0, edges[i].1, succ(edges, edges[i].1), directed).contains(r));
        }
    }
    assert(t.to_set() =~= want);
}

} // verus!
