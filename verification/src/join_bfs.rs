//! Breadth-first execution. Instead of backtracking one variable at a time, the executor
//! keeps a frontier of every viable binding of the first k variables, together with each
//! atom's current trie node, and extends the whole frontier to k + 1 variables per level.
//! The proposer and intersection logic is that of the depth-first executor, scheduled
//! level by level over all partial solutions.
use vstd::prelude::*;
use std::collections::HashMap;
use vstd::std_specs::hash::spec_hash_map_iter;
use vstd::std_specs::iter::IteratorSpec;
use crate::value::Value;
use crate::op::Operator;
use crate::join::{
    ExecutableQuery, Level, Atom, Trie, TrieMap, handed_to, exec_wf, viable, node_at, node_has, level_ok, level_wf,
    filter_wf, gather, project, subtrie, levels_of, trie_wf, lemma_wf_pos, lemma_levels_of_count,
    lemma_subtrie_wf, lemma_levels_of_take, lemma_level_ok_local, lemma_subtrie_prefix, lemma_viable_full,
    lemma_viable_push, lemma_no_dup_append, lemma_active_in_level,
};
use crate::sorting::{
    rows_of, rows_strictly_sorted, sort_rows, lemma_same_multiset, lemma_rows_strict, lemma_sorted_unique,
    lemma_distinct_same_multiset,
};

verus! {

broadcast use vstd::std_specs::hash::group_hash_axioms;

/// The prefix `p` is viable, and for every atom with a level still to bind, `ns` holds the
/// node that its trie reaches along `p`.
pub open spec fn entry_ok<Op: Operator>(roots: Seq<Trie>, levels: Seq<Level<Op>>, p: Seq<Value>, ns: Seq<&TrieMap>) -> bool {
    &&& ns.len() == roots.len()
    &&& viable(roots, levels, p)
    &&& forall|a: int|
        0 <= a < roots.len() && levels_of(levels.take(p.len() as int), a).len() < levels_of(levels, a).len()
            ==> node_at(roots, levels, a, p) == Some(Trie::Node(*#[trigger] ns[a]))
}

/// The viable bindings of the first `k` variables.
pub open spec fn viable_prefixes<Op: Operator>(roots: Seq<Trie>, levels: Seq<Level<Op>>, k: int) -> Set<Seq<Value>> {
    Set::new(|p: Seq<Value>| p.len() == k && viable(roots, levels, p))
}

/// The viable one-value extensions of `p`.
pub open spec fn children_of<Op: Operator>(roots: Seq<Trie>, levels: Seq<Level<Op>>, p: Seq<Value>) -> Set<Seq<Value>> {
    Set::new(|q: Seq<Value>| q.len() == p.len() + 1 && q.drop_last() == p && viable(roots, levels, q))
}

/// The frontier: every entry binds `k` variables and is consistent with its nodes.
pub open spec fn frontier_ok<Op: Operator>(
    roots: Seq<Trie>,
    levels: Seq<Level<Op>>,
    k: int,
    ps: Seq<Vec<Value>>,
    ns: Seq<Vec<&TrieMap>>,
) -> bool {
    &&& ps.len() == ns.len()
    &&& forall|r: int| 0 <= r < ps.len() ==> (#[trigger] ps[r])@.len() == k && entry_ok(roots, levels, ps[r]@, ns[r]@)
}

/// Dropping the last variable of a viable binding leaves a viable binding.
proof fn lemma_viable_drop_last<Op: Operator>(roots: Seq<Trie>, levels: Seq<Level<Op>>, q: Seq<Value>)
    requires
        exec_wf(roots, levels),
        viable(roots, levels, q),
        q.len() > 0,
    ensures
        viable(roots, levels, q.drop_last()),
{
    let p = q.drop_last();
    let i = p.len() as int;
    assert forall|a: int| 0 <= a < roots.len() implies subtrie(#[trigger] roots[a], project(p, levels_of(levels.take(i), a))) is Some by {
        lemma_levels_of_take(levels, a, i);
        lemma_levels_of_count(levels.take(i), a);
        let li = levels_of(levels.take(i), a);
        assert(subtrie(roots[a], project(q, levels_of(levels.take(i + 1), a))) is Some);
        if levels[i].atoms@.contains(a as usize) {
            let pq = project(q, li.push(i));
            lemma_subtrie_prefix(roots[a], pq, li.len() as int);
            assert(pq.take(li.len() as int) =~= project(p, li));
        } else {
            assert(project(q, li) =~= project(p, li));
        }
    }
    assert forall|i2: int| 0 <= i2 < i implies level_ok(#[trigger] levels[i2], p, i2) by {
        assert(level_ok(levels[i2], q, i2));
        assert(level_wf(levels[i2], i2, roots.len() as int));
        lemma_level_ok_local(levels[i2], i2, roots.len() as int, q, p);
    }
}

/// The values of `p` at the first `count` of the given positions.
fn gather_values(p: &[Value], positions: &[usize], count: usize) -> (r: Vec<Value>)
    requires
        count <= positions@.len(),
        forall|j: int| 0 <= j < count ==> #[trigger] positions@[j] < p@.len(),
    ensures
        r@ == gather(p@, positions@.take(count as int)),
{
    let mut r: Vec<Value> = Vec::new();
    let mut j: usize = 0;
    while j < count
        invariant
            j <= count,
            count <= positions@.len(),
            forall|j2: int| 0 <= j2 < count ==> #[trigger] positions@[j2] < p@.len(),
            r@ == gather(p@, positions@.take(j as int)),
        decreases count - j,
    {
        r.push(p[positions[j]]);
        j = j + 1;
        assert(r@ =~= gather(p@, positions@.take(j as int)));
    }
    r
}

/// Every filter accepts its variables in `q`.
fn filters_hold<Op: Operator>(q: &[Value], filters: &[Atom<Op, usize>], Ghost(i): Ghost<int>) -> (b: bool)
    requires
        forall|f: int| 0 <= f < filters@.len() ==> filter_wf(#[trigger] filters@[f], i),
        i < q@.len(),
    ensures
        b == forall|f: int| 0 <= f < filters@.len() ==> (#[trigger] filters@[f]).pred.spec_check(gather(q@, filters@[f].vars@)),
{
    let mut j: usize = 0;
    while j < filters.len()
        invariant
            j <= filters@.len(),
            forall|f: int| 0 <= f < filters@.len() ==> filter_wf(#[trigger] filters@[f], i),
            i < q@.len(),
            forall|f: int| 0 <= f < j ==> (#[trigger] filters@[f]).pred.spec_check(gather(q@, filters@[f].vars@)),
        decreases filters@.len() - j,
    {
        let f = &filters[j];
        assert(filter_wf(*f, i));
        let input = gather_values(q, f.vars.as_slice(), f.vars.len());
        assert(f.vars@.take(f.vars@.len() as int) =~= f.vars@);
        if !f.pred.check(input.as_slice()) {
            return false;
        }
        j = j + 1;
    }
    true
}

/// A copy of a vector of node references.
fn copy_nodes<'t>(ns: &Vec<&'t TrieMap>) -> (r: Vec<&'t TrieMap>)
    ensures
        r@ == ns@,
{
    let mut r: Vec<&'t TrieMap> = Vec::new();
    let mut j: usize = 0;
    while j < ns.len()
        invariant
            j <= ns@.len(),
            r@ == ns@.take(j as int),
        decreases ns@.len() - j,
    {
        r.push(ns[j]);
        j = j + 1;
        assert(r@ =~= ns@.take(j as int));
    }
    assert(ns@.take(ns@.len() as int) =~= ns@);
    r
}

/// Proposes `key` for the frontier entry (`p`, `ns`): looks it up in every trie of the level
/// but the proposer's (whose child is handed in), checks the filters, and appends the
/// extended entry if it is viable.
fn extend_entry<'t, Op: Operator>(
    level: &Level<Op>,
    p: &Vec<Value>,
    ns: &Vec<&'t TrieMap>,
    key: Value,
    proposer_pos: usize,
    proposer_child: Option<&'t Trie>,
    out_p: &mut Vec<Vec<Value>>,
    out_n: &mut Vec<Vec<&'t TrieMap>>,
    Ghost(roots): Ghost<Seq<Trie>>,
    Ghost(levels): Ghost<Seq<Level<Op>>>,
)
    requires
        exec_wf(roots, levels),
        p@.len() < levels.len(),
        *level == levels[p@.len() as int],
        entry_ok(roots, levels, p@, ns@),
        old(out_p)@.len() == old(out_n)@.len(),
        proposer_pos <= level.atoms@.len(),
        proposer_pos < level.atoms@.len() ==> {
            let m = *ns@[level.atoms@[proposer_pos as int] as int];
            &&& level.proposer is None
            &&& m@.contains_key(key)
            &&& (proposer_child matches Some(c) && *c == m@[key])
        },
        proposer_pos == level.atoms@.len() ==> (level.proposer matches Some(pr) && pr.pred.spec_compute(
            gather(p@, pr.vars@.drop_last()),
        ) == Some(key)),
    ensures
        final(out_p)@.len() == final(out_n)@.len(),
        rows_of(final(out_p)@) == if viable(roots, levels, p@.push(key)) {
            rows_of(old(out_p)@).push(p@.push(key))
        } else {
            rows_of(old(out_p)@)
        },
        final(out_n)@.take(old(out_n)@.len() as int) == old(out_n)@,
        viable(roots, levels, p@.push(key)) ==> entry_ok(roots, levels, p@.push(key), final(out_n)@.last()@),
{
    let ghost i = p@.len() as int;
    let ghost q = p@.push(key);
    proof {
        assert(level_wf(*level, i, roots.len() as int));
        lemma_viable_push(roots, levels, p@, key);
    }
    let width = level.atoms.len();
    // Look the key up in each trie of the level.
    let mut children: Vec<&'t Trie> = Vec::new();
    let mut pos: usize = 0;
    while pos < width
        invariant
            pos <= width,
            width == level.atoms@.len(),
            level_wf(*level, i, roots.len() as int),
            exec_wf(roots, levels),
            i == p@.len(),
            i < levels.len(),
            *level == levels[i],
            entry_ok(roots, levels, p@, ns@),
            proposer_pos <= width,
            proposer_pos < width ==> {
                let m = *ns@[level.atoms@[proposer_pos as int] as int];
                &&& m@.contains_key(key)
                &&& (proposer_child matches Some(c) && *c == m@[key])
            },
            children@.len() == pos,
            q == p@.push(key),
            out_p@ == old(out_p)@,
            out_n@ == old(out_n)@,
            old(out_p)@.len() == old(out_n)@.len(),
            forall|pos2: int| 0 <= pos2 < pos ==> #[trigger] node_has(roots, levels, level.atoms@[pos2] as int, p@, key),
            forall|pos2: int| 0 <= pos2 < pos ==> *children@[pos2] == (*ns@[level.atoms@[pos2] as int])@[key],
        decreases width - pos,
    {
        let a = level.atoms[pos];
        proof {
            assert(level.atoms@.contains(a));
            lemma_active_in_level(levels, a as int, i);
            assert(node_at(roots, levels, a as int, p@) == Some(Trie::Node(*ns@[a as int])));
        }
        if pos == proposer_pos {
            children.push(proposer_child.unwrap());
        } else {
            match ns[a].get(&key) {
                Some(c) => children.push(c),
                None => {
                    proof {
                        lemma_viable_push(roots, levels, p@, key);
                    }
                    assert(!node_has(roots, levels, a as int, p@, key));
                    assert(!viable(roots, levels, q));
                    return;
                },
            }
        }
        pos = pos + 1;
    }
    // The extended binding.
    let mut qv: Vec<Value> = Vec::new();
    let mut j: usize = 0;
    while j < p.len()
        invariant
            j <= p@.len(),
            qv@ == p@.take(j as int),
        decreases p@.len() - j,
    {
        qv.push(p[j]);
        j = j + 1;
        assert(qv@ =~= p@.take(j as int));
    }
    assert(p@.take(p@.len() as int) =~= p@);
    qv.push(key);
    assert(qv@ == q);
    if !filters_hold(qv.as_slice(), level.filters.as_slice(), Ghost(i)) {
        assert(!level_ok(*level, q, i));
        return;
    }
    proof {
        if level.proposer is Some {
            let pr = level.proposer->0;
            assert(gather(q, pr.vars@.drop_last()) =~= gather(p@, pr.vars@.drop_last()));
        }
        assert(level_ok(*level, q, i));
        assert(viable(roots, levels, q));
    }
    // Descend the level's atoms to their children under `key`.
    let mut nn = copy_nodes(ns);
    let mut pos: usize = 0;
    while pos < width
        invariant
            pos <= width,
            width == level.atoms@.len(),
            level_wf(*level, i, roots.len() as int),
            children@.len() == width,
            nn@.len() == ns@.len(),
            ns@.len() == roots.len(),
            forall|a: int| 0 <= a < ns@.len() && !level.atoms@.contains(a as usize) ==> #[trigger] nn@[a] == ns@[a],
            forall|pos2: int| 0 <= pos2 < pos ==> (#[trigger] children@[pos2] matches Trie::Node(c) ==> *nn@[level.atoms@[pos2] as int] == c),
        decreases width - pos,
    {
        if let Trie::Node(map) = children[pos] {
            nn.set(level.atoms[pos], map);
        }
        proof {
            assert forall|pos2: int| 0 <= pos2 < width && pos2 != pos implies level.atoms@[pos2] != level.atoms@[pos as int] by {
                if pos2 < pos { assert(level.atoms@[pos2] < level.atoms@[pos as int]); }
                else { assert(level.atoms@[pos as int] < level.atoms@[pos2]); }
            }
        }
        pos = pos + 1;
    }
    proof {
        assert forall|a: int|
            0 <= a < roots.len() && levels_of(levels.take(q.len() as int), a).len() < levels_of(levels, a).len()
            implies node_at(roots, levels, a, q) == Some(Trie::Node(*#[trigger] nn@[a])) by {
            lemma_levels_of_take(levels, a, i);
            if level.atoms@.contains(a as usize) {
                let pos2 = choose|pos2: int| 0 <= pos2 < level.atoms@.len() && level.atoms@[pos2] == a as usize;
                let m = *ns@[a];
                lemma_active_in_level(levels, a, i);
                assert(node_at(roots, levels, a, p@) == Some(Trie::Node(m)));
                assert(node_has(roots, levels, level.atoms@[pos2] as int, p@, key));
                assert(node_at(roots, levels, a, q) == Some(m@[key]));
                lemma_subtrie_wf(roots[a], levels_of(levels, a).len(), project(q, levels_of(levels.take(q.len() as int), a)));
                lemma_wf_pos(m@[key], (levels_of(levels, a).len() - levels_of(levels.take(q.len() as int), a).len()) as nat);
                assert(*children@[pos2] == m@[key]);
            } else {
                assert(node_at(roots, levels, a, q) == node_at(roots, levels, a, p@));
            }
        }
    }
    let ghost old_p = rows_of(out_p@);
    let ghost old_n = out_n@;
    out_p.push(qv);
    out_n.push(nn);
    assert(rows_of(out_p@) =~= old_p.push(q));
    assert(out_n@.take(old_n.len() as int) =~= old_n);
}

/// Extends the frontier entry (`p`, `ns`) by every value of the next variable that keeps it
/// viable, appending the extended entries.
fn expand_entry<'t, Op: Operator>(
    level: &Level<Op>,
    p: &Vec<Value>,
    ns: &Vec<&'t TrieMap>,
    out_p: &mut Vec<Vec<Value>>,
    out_n: &mut Vec<Vec<&'t TrieMap>>,
    Ghost(roots): Ghost<Seq<Trie>>,
    Ghost(levels): Ghost<Seq<Level<Op>>>,
)
    requires
        exec_wf(roots, levels),
        p@.len() < levels.len(),
        *level == levels[p@.len() as int],
        entry_ok(roots, levels, p@, ns@),
        old(out_p)@.len() == old(out_n)@.len(),
    ensures
        final(out_p)@.len() == final(out_n)@.len(),
        final(out_p)@.len() >= old(out_p)@.len(),
        rows_of(final(out_p)@).take(old(out_p)@.len() as int) == rows_of(old(out_p)@),
        final(out_n)@.take(old(out_n)@.len() as int) == old(out_n)@,
        rows_of(final(out_p)@).skip(old(out_p)@.len() as int).no_duplicates(),
        rows_of(final(out_p)@).skip(old(out_p)@.len() as int).to_set() == children_of(roots, levels, p@),
        forall|r: int|
            old(out_p)@.len() <= r < final(out_p)@.len() ==> (#[trigger] final(out_p)@[r])@.len() == p@.len() + 1
                && entry_ok(roots, levels, final(out_p)@[r]@, final(out_n)@[r]@),
{
    let ghost i = p@.len() as int;
    let ghost n0 = out_p@.len() as int;
    let ghost r0 = rows_of(out_p@);
    let ghost nodes0 = out_n@;
    proof {
        assert(level_wf(*level, i, roots.len() as int));
        assert(r0.skip(n0) =~= Seq::<Seq<Value>>::empty());
        assert(r0.take(n0) =~= r0);
        assert(nodes0.take(n0) =~= nodes0);
        assert forall|q: Seq<Value>| #[trigger] children_of(roots, levels, p@).contains(q) implies q == p@.push(q[i])
            && level_ok(levels[i], q, i) by {
            assert(q =~= q.drop_last().push(q[i]));
        }
    }
    let width = level.atoms.len();
    match &level.proposer {
        // An operator computes the only candidate value.
        Some(prop) => {
            let n_in = prop.vars.len() - 1;
            let input = gather_values(p.as_slice(), prop.vars.as_slice(), n_in);
            assert(prop.vars@.take(n_in as int) =~= prop.vars@.drop_last());
            let computed = prop.pred.compute(input.as_slice());
            proof {
                assert forall|q: Seq<Value>| #[trigger] children_of(roots, levels, p@).contains(q) implies computed == Some(q[i]) by {
                    assert(gather(q, prop.vars@.drop_last()) =~= gather(p@, prop.vars@.drop_last()));
                }
            }
            match computed {
                Some(key) => {
                    extend_entry(level, p, ns, key, width, None, out_p, out_n, Ghost(roots), Ghost(levels));
                    proof {
                        let e = rows_of(out_p@).skip(n0);
                        if viable(roots, levels, p@.push(key)) {
                            assert(e =~= seq![p@.push(key)]);
                            assert(children_of(roots, levels, p@).contains(p@.push(key))) by {
                                assert(p@.push(key).drop_last() =~= p@);
                            }
                            assert(e.to_set() =~= children_of(roots, levels, p@)) by {
                                assert forall|q: Seq<Value>| e.to_set().contains(q) <==> children_of(roots, levels, p@).contains(q) by {
                                    if e.to_set().contains(q) {
                                        assert(e.contains(q));
                                        assert(q == e[0]);
                                    }
                                    if children_of(roots, levels, p@).contains(q) {
                                        assert(e[0] == q);
                                        assert(e.contains(q));
                                    }
                                }
                            }
                        } else {
                            assert(e =~= Seq::<Seq<Value>>::empty());
                            assert(children_of(roots, levels, p@) =~= Set::<Seq<Value>>::empty());
                        }
                        assert(rows_of(out_p@).take(n0) =~= r0);
                    }
                },
                None => {
                    assert(children_of(roots, levels, p@) =~= Set::<Seq<Value>>::empty());
                },
            }
        },
        // The trie with the fewest children proposes its keys.
        None => {
            let mut proposer_pos: usize = 0;
            let mut best = ns[level.atoms[0]].len();
            let mut pos: usize = 1;
            while pos < width
                invariant
                    1 <= pos <= width,
                    proposer_pos < width,
                    width == level.atoms@.len(),
                    level_wf(*level, i, roots.len() as int),
                    entry_ok(roots, levels, p@, ns@),
                    ns@.len() == roots.len(),
                decreases width - pos,
            {
                let size = ns[level.atoms[pos]].len();
                if size < best {
                    best = size;
                    proposer_pos = pos;
                }
                pos = pos + 1;
            }
            let pa = level.atoms[proposer_pos];
            let proposer_map: &'t TrieMap = ns[pa];
            let ghost m = *proposer_map;
            let ghost seq0 = spec_hash_map_iter(proposer_map).remaining();
            proof {
                assert(level.atoms@.contains(pa));
                lemma_active_in_level(levels, pa as int, i);
                assert(node_at(roots, levels, pa as int, p@) == Some(Trie::Node(m)));
            }
            for (key, child) in it: proposer_map.iter()
                invariant
                    i == p@.len(),
                    i < levels.len(),
                    *level == levels[i],
                    level.proposer is None,
                    level_wf(*level, i, roots.len() as int),
                    exec_wf(roots, levels),
                    entry_ok(roots, levels, p@, ns@),
                    width == level.atoms@.len(),
                    proposer_pos < width,
                    pa == level.atoms@[proposer_pos as int],
                    m == *ns@[pa as int],
                    m == *proposer_map,
                    node_at(roots, levels, pa as int, p@) == Some(Trie::Node(m)),
                    it.seq() == seq0,
                    seq0 == spec_hash_map_iter(proposer_map).remaining(),
                    seq0.no_duplicates(),
                    out_p@.len() == out_n@.len(),
                    n0 <= out_p@.len(),
                    r0.len() == n0,
                    nodes0.len() == n0,
                    rows_of(out_p@).take(n0) == r0,
                    out_n@.take(n0) == nodes0,
                    rows_of(out_p@).skip(n0).no_duplicates(),
                    rows_of(out_p@).skip(n0).to_set() == Set::new(|q: Seq<Value>| children_of(roots, levels, p@).contains(q)
                        && exists|j: int| 0 <= j < it.index() && *seq0[j].0 == q[i]),
                    forall|r: int|
                        n0 <= r < out_p@.len() ==> (#[trigger] out_p@[r])@.len() == i + 1
                            && entry_ok(roots, levels, out_p@[r]@, out_n@[r]@),
            {
                let ghost k = it.index();
                let ghost e1 = rows_of(out_p@).skip(n0);
                let ghost rows1 = rows_of(out_p@);
                let ghost nodes1 = out_n@;
                let ghost ps1 = out_p@;
                proof {
                    assert(it.seq()[k] == (key, child));
                    assert(m@.contains_key(*seq0[k].0));
                    assert(m@.contains_key(*key) && m@[*key] == *child);
                }
                extend_entry(level, p, ns, *key, proposer_pos, Some(child), out_p, out_n, Ghost(roots), Ghost(levels));
                proof {
                    let q = p@.push(*key);
                    let rows2 = rows_of(out_p@);
                    let e = rows2.skip(n0);
                    assert(q.drop_last() =~= p@);
                    assert forall|r: int| 0 <= r < ps1.len() implies (#[trigger] out_p@[r])@ == ps1[r]@ && out_n@[r] == nodes1[r] by {
                        assert(out_n@.take(nodes1.len() as int)[r] == out_n@[r]);
                        if viable(roots, levels, q) {
                            assert(rows2[r] == rows1.push(q)[r]);
                        }
                        assert(rows2[r] == rows1[r]);
                    }
                    assert(ps1.len() == rows1.len() && rows1.len() >= n0);
                    assert forall|r: int| 0 <= r < n0 implies #[trigger] rows2[r] == r0[r] && out_n@[r] == nodes0[r] by {
                        assert(out_p@[r]@ == ps1[r]@);
                        assert(rows2[r] == out_p@[r]@);
                        assert(rows1[r] == ps1[r]@);
                        assert(rows1.take(n0)[r] == rows1[r]);
                        assert(nodes1.take(n0)[r] == nodes1[r]);
                    }
                    assert(rows2.take(n0) =~= r0);
                    assert(out_n@.take(n0) =~= nodes0);
                    assert forall|r: int| n0 <= r < ps1.len() implies (#[trigger] out_p@[r])@.len() == i + 1
                        && entry_ok(roots, levels, out_p@[r]@, out_n@[r]@) by {
                        assert(out_p@[r]@ == ps1[r]@);
                    }
                    if viable(roots, levels, q) {
                        assert(e =~= e1.push(q));
                        assert(!e1.contains(q)) by {
                            if e1.contains(q) {
                                assert(e1.to_set().contains(q));
                                let j = choose|j: int| 0 <= j < k && *seq0[j].0 == q[i];
                                assert(q[i] == *key);
                                assert(seq0[j] != seq0[k]);
                                assert(m@[*seq0[j].0] == *seq0[j].1);
                            }
                        }
                        assert(e.no_duplicates()) by {
                            assert forall|a: int, b: int| 0 <= a < e.len() && 0 <= b < e.len() && a != b implies e[a] != e[b] by {
                                if a < e1.len() && b == e1.len() {
                                    assert(e1.contains(e1[a]));
                                }
                                if b < e1.len() && a == e1.len() {
                                    assert(e1.contains(e1[b]));
                                }
                            }
                        }
                        assert(children_of(roots, levels, p@).contains(q));
                        assert(e.to_set() =~= Set::new(|q2: Seq<Value>| children_of(roots, levels, p@).contains(q2)
                            && exists|j: int| 0 <= j < k + 1 && *seq0[j].0 == q2[i])) by {
                            assert forall|q2: Seq<Value>| e.to_set().contains(q2) implies children_of(roots, levels, p@).contains(q2)
                                && exists|j: int| 0 <= j < k + 1 && *seq0[j].0 == q2[i] by {
                                assert(e.contains(q2));
                                if q2 != q {
                                    assert(e1.contains(q2));
                                    assert(e1.to_set().contains(q2));
                                } else {
                                    assert(*seq0[k].0 == q2[i]);
                                }
                            }
                            assert forall|q2: Seq<Value>| children_of(roots, levels, p@).contains(q2)
                                && (exists|j: int| 0 <= j < k + 1 && *seq0[j].0 == q2[i]) implies #[trigger] e.to_set().contains(q2) by {
                                let j = choose|j: int| 0 <= j < k + 1 && *seq0[j].0 == q2[i];
                                if j < k {
                                    assert(e1.to_set().contains(q2));
                                    assert(e1.contains(q2));
                                    let n = choose|n: int| 0 <= n < e1.len() && e1[n] == q2;
                                    assert(e[n] == q2);
                                } else {
                                    assert(q2 == p@.push(q2[i]));
                                    assert(q2 == q);
                                    assert(e[e1.len() as int] == q2);
                                }
                            }
                        }
                        assert forall|r: int| n0 <= r < out_p@.len() implies (#[trigger] out_p@[r])@.len() == i + 1
                            && entry_ok(roots, levels, out_p@[r]@, out_n@[r]@) by {
                            if r == ps1.len() {
                                assert(out_p@[r]@ == rows2[r]);
                                assert(rows2[r] == q);
                            }
                        }
                    } else {
                        assert(e =~= e1);
                        assert forall|q2: Seq<Value>| #![auto] children_of(roots, levels, p@).contains(q2)
                            && (exists|j: int| 0 <= j < k + 1 && *seq0[j].0 == q2[i])
                            implies exists|j: int| 0 <= j < k && *seq0[j].0 == q2[i] by {
                            let j = choose|j: int| 0 <= j < k + 1 && *seq0[j].0 == q2[i];
                            if j == k {
                                assert(q2 == p@.push(q2[i]));
                                assert(q2 == q);
                            }
                        }
                        assert(e.to_set() =~= Set::new(|q2: Seq<Value>| children_of(roots, levels, p@).contains(q2)
                            && exists|j: int| 0 <= j < k + 1 && *seq0[j].0 == q2[i]));
                    }
                }
            }
            proof {
                let e = rows_of(out_p@).skip(n0);
                assert(e.to_set() == Set::new(|q: Seq<Value>| children_of(roots, levels, p@).contains(q)
                    && exists|j: int| 0 <= j < seq0.len() && *seq0[j].0 == q[i]));
                assert forall|q: Seq<Value>| children_of(roots, levels, p@).contains(q)
                    implies exists|j: int| 0 <= j < seq0.len() && *seq0[j].0 == q[i] by {
                    lemma_viable_push(roots, levels, p@, q[i]);
                    assert(node_has(roots, levels, level.atoms@[proposer_pos as int] as int, p@, q[i]));
                    assert(m@.contains_key(q[i]));
                    assert(seq0.contains((&q[i], &m@[q[i]])));
                }
                assert(e.to_set() =~= children_of(roots, levels, p@));
            }
        },
    }
}

/// Extends every entry of a frontier binding `i` variables to the frontier binding `i + 1`.
fn bfs_level<'t, Op: Operator>(
    level: &Level<Op>,
    ps: &Vec<Vec<Value>>,
    ns: &Vec<Vec<&'t TrieMap>>,
    Ghost(roots): Ghost<Seq<Trie>>,
    Ghost(levels): Ghost<Seq<Level<Op>>>,
    Ghost(i): Ghost<int>,
) -> (r: (Vec<Vec<Value>>, Vec<Vec<&'t TrieMap>>))
    requires
        exec_wf(roots, levels),
        0 <= i < levels.len(),
        *level == levels[i],
        frontier_ok(roots, levels, i, ps@, ns@),
        rows_of(ps@).no_duplicates(),
    ensures
        frontier_ok(roots, levels, i + 1, r.0@, r.1@),
        rows_of(r.0@).no_duplicates(),
        rows_of(r.0@).to_set() == Set::new(
            |q: Seq<Value>| q.len() == i + 1 && viable(roots, levels, q) && rows_of(ps@).contains(q.drop_last()),
        ),
{
    let mut out_p: Vec<Vec<Value>> = Vec::new();
    let mut out_n: Vec<Vec<&'t TrieMap>> = Vec::new();
    let ghost pv = rows_of(ps@);
    let mut k: usize = 0;
    proof {
        assert(rows_of(out_p@).to_set() =~= Set::new(
            |q: Seq<Value>| q.len() == i + 1 && viable(roots, levels, q) && pv.take(0).contains(q.drop_last()),
        ));
    }
    while k < ps.len()
        invariant
            k <= ps@.len(),
            exec_wf(roots, levels),
            0 <= i < levels.len(),
            *level == levels[i],
            frontier_ok(roots, levels, i, ps@, ns@),
            pv == rows_of(ps@),
            pv.no_duplicates(),
            frontier_ok(roots, levels, i + 1, out_p@, out_n@),
            rows_of(out_p@).no_duplicates(),
            rows_of(out_p@).to_set() == Set::new(
                |q: Seq<Value>| q.len() == i + 1 && viable(roots, levels, q) && pv.take(k as int).contains(q.drop_last()),
            ),
        decreases ps@.len() - k,
    {
        let ghost n0 = out_p@.len() as int;
        let ghost rows1 = rows_of(out_p@);
        let ghost ps1 = out_p@;
        let ghost ns1 = out_n@;
        let ghost p = ps@[k as int]@;
        assert(ps@[k as int]@.len() == i && entry_ok(roots, levels, ps@[k as int]@, ns@[k as int]@));
        expand_entry(level, &ps[k], &ns[k], &mut out_p, &mut out_n, Ghost(roots), Ghost(levels));
        proof {
            let rows2 = rows_of(out_p@);
            let e = rows2.skip(n0);
            assert(rows2 =~= rows1 + e) by {
                assert(rows2.take(n0) == rows1);
                assert(rows1.len() == n0);
                assert forall|x: int| 0 <= x < rows2.len() implies rows2[x] == (rows1 + e)[x] by {
                    if x < n0 {
                        assert(rows2.take(n0)[x] == rows2[x]);
                    }
                }
            }
            assert forall|x: Seq<Value>| rows1.contains(x) implies !e.contains(x) by {
                if e.contains(x) {
                    assert(rows1.to_set().contains(x));
                    assert(e.to_set().contains(x));
                    assert(x.drop_last() == p);
                    let j = choose|j: int| 0 <= j < k && #[trigger] pv.take(k as int)[j] == x.drop_last();
                    assert(pv[j] == pv[k as int]);
                }
            }
            lemma_no_dup_append(rows1, e);
            assert(pv.take(k as int + 1) =~= pv.take(k as int).push(p));
            assert(rows2.to_set() =~= Set::new(
                |q: Seq<Value>| q.len() == i + 1 && viable(roots, levels, q) && pv.take(k as int + 1).contains(q.drop_last()),
            )) by {
                assert forall|q: Seq<Value>| rows2.to_set().contains(q) implies q.len() == i + 1 && viable(roots, levels, q)
                    && pv.take(k as int + 1).contains(q.drop_last()) by {
                    assert(rows2.contains(q));
                    let n = choose|n: int| 0 <= n < rows2.len() && rows2[n] == q;
                    if n < rows1.len() {
                        assert(rows1[n] == q);
                        assert(rows1.to_set().contains(q));
                        let j = choose|j: int| 0 <= j < k && #[trigger] pv.take(k as int)[j] == q.drop_last();
                        assert(pv.take(k as int + 1)[j] == q.drop_last());
                    } else {
                        assert(e[n - rows1.len()] == q);
                        assert(e.to_set().contains(q));
                        assert(pv.take(k as int + 1)[k as int] == q.drop_last());
                    }
                }
                assert forall|q: Seq<Value>| q.len() == i + 1 && viable(roots, levels, q)
                    && pv.take(k as int + 1).contains(q.drop_last()) implies #[trigger] rows2.to_set().contains(q) by {
                    let j = choose|j: int| 0 <= j < k + 1 && #[trigger] pv.take(k as int + 1)[j] == q.drop_last();
                    if j < k {
                        assert(pv.take(k as int)[j] == q.drop_last());
                        assert(rows1.to_set().contains(q));
                        let n = choose|n: int| 0 <= n < rows1.len() && rows1[n] == q;
                        assert(rows2[n] == q);
                    } else {
                        assert(q.drop_last() == p);
                        assert(children_of(roots, levels, p).contains(q));
                        assert(e.to_set().contains(q));
                        let n = choose|n: int| 0 <= n < e.len() && e[n] == q;
                        assert(rows2[rows1.len() + n] == q);
                    }
                }
            }
            assert forall|r: int| 0 <= r < out_p@.len() implies (#[trigger] out_p@[r])@.len() == i + 1
                && entry_ok(roots, levels, out_p@[r]@, out_n@[r]@) by {
                if r < n0 {
                    assert(rows2[r] == rows1[r]);
                    assert(out_n@.take(n0)[r] == ns1[r]);
                    assert(ps1[r]@.len() == i + 1 && entry_ok(roots, levels, ps1[r]@, ns1[r]@));
                    assert(out_p@[r]@ == rows2[r]);
                    assert(ps1[r]@ == rows1[r]);
                }
            }
        }
        k = k + 1;
    }
    assert(pv.take(ps@.len() as int) =~= pv);
    (out_p, out_n)
}

impl<'a, Op: Operator> ExecutableQuery<'a, Op> {
    /// The final frontier: every solution, once each.
    fn bfs_frontier<'b>(&'b self, empty: &'b TrieMap) -> (ps: Vec<Vec<Value>>)
        requires
            self.wf(),
        ensures
            rows_of(ps@).no_duplicates(),
            rows_of(ps@).to_set() == self.solutions(),
    {
        let ghost roots = self.roots();
        let ghost levels = self.levels@;
        let start = self.root_nodes(empty);
        proof {
            self.lemma_start(start@);
        }
        let mut ps: Vec<Vec<Value>> = Vec::new();
        ps.push(Vec::new());
        let mut ns: Vec<Vec<&'b TrieMap>> = Vec::new();
        ns.push(start);
        proof {
            assert(ps@[0]@ =~= Seq::<Value>::empty());
            assert(rows_of(ps@) =~= seq![Seq::<Value>::empty()]);
            assert(rows_of(ps@).to_set() =~= viable_prefixes(roots, levels, 0)) by {
                assert forall|p: Seq<Value>| viable_prefixes(roots, levels, 0).contains(p) implies rows_of(ps@).to_set().contains(p) by {
                    assert(p =~= Seq::<Value>::empty());
                    assert(rows_of(ps@)[0] == p);
                }
            }
        }
        let n = self.levels.len();
        let mut level_idx: usize = 0;
        while level_idx < n
            invariant
                level_idx <= n,
                n == levels.len(),
                roots == self.roots(),
                levels == self.levels@,
                exec_wf(roots, levels),
                frontier_ok(roots, levels, level_idx as int, ps@, ns@),
                rows_of(ps@).no_duplicates(),
                rows_of(ps@).to_set() == viable_prefixes(roots, levels, level_idx as int),
            decreases n - level_idx,
        {
            let (ps2, ns2) = bfs_level(&self.levels[level_idx], &ps, &ns, Ghost(roots), Ghost(levels), Ghost(level_idx as int));
            proof {
                assert(rows_of(ps2@).to_set() =~= viable_prefixes(roots, levels, level_idx as int + 1)) by {
                    assert forall|q: Seq<Value>| viable_prefixes(roots, levels, level_idx as int + 1).contains(q)
                        implies rows_of(ps@).contains(q.drop_last()) by {
                        lemma_viable_drop_last(roots, levels, q);
                        assert(rows_of(ps@).to_set().contains(q.drop_last()));
                    }
                }
            }
            ps = ps2;
            ns = ns2;
            level_idx = level_idx + 1;
        }
        proof {
            assert(viable_prefixes(roots, levels, n as int) =~= self.solutions()) by {
                assert forall|s2: Seq<Value>| #[trigger] self.solutions().contains(s2) <==> viable_prefixes(roots, levels, n as int).contains(s2) by {
                    if s2.len() == n {
                        lemma_viable_full(roots, levels, s2);
                    }
                }
            }
        }
        ps
    }

    /// Runs the query breadth-first and hands each result row to `f`, once each. Returns
    /// the rows that `f` was handed, in order: exactly the query's solutions, none twice.
    pub fn execute_bfs<F: FnMut(&[Value])>(&self, f: F) -> (rows: Ghost<Seq<Seq<Value>>>)
        requires
            self.wf(),
            forall|row: &[Value]| call_requires(f, (row,)),
        ensures
            rows@.no_duplicates(),
            rows@.to_set() == self.solutions(),
            forall|i: int| 0 <= i < rows@.len() ==> handed_to(f, #[trigger] rows@[i]),
    {
        let ghost f0 = f;
        let mut f = f;
        let empty: TrieMap = HashMap::new();
        let ps = self.bfs_frontier(&empty);
        let ghost mut log: Seq<Seq<Value>> = Seq::empty();
        let mut k: usize = 0;
        while k < ps.len()
            invariant
                k <= ps@.len(),
                log == rows_of(ps@).take(k as int),
                forall|row: &[Value]| call_requires(f, (row,)),
                f == f0,
                forall|i: int| 0 <= i < log.len() ==> handed_to(f0, #[trigger] log[i]),
            decreases ps@.len() - k,
        {
            let ghost log0 = log;
            let row = ps[k].as_slice();
            f(row);
            proof {
                log = log.push(ps@[k as int]@);
                assert(call_ensures(f0, (row,), ()));
                assert forall|i: int| 0 <= i < log.len() implies handed_to(f0, #[trigger] log[i]) by {
                    if i < log0.len() {
                        assert(log[i] == log0[i]);
                    } else {
                        assert(row@ == log[i]);
                    }
                }
            }
            k = k + 1;
            assert(log =~= rows_of(ps@).take(k as int));
        }
        assert(rows_of(ps@).take(ps@.len() as int) =~= rows_of(ps@));
        Ghost(log)
    }

    /// Runs the query breadth-first and collects the result rows, sorted ascending. Rows
    /// are distinct, so the order is strict.
    pub fn collect_bfs(&self) -> (out: Vec<Vec<Value>>)
        requires
            self.wf(),
        ensures
            rows_strictly_sorted(rows_of(out@)),
            rows_of(out@).to_set() == self.solutions(),
    {
        let empty: TrieMap = HashMap::new();
        let mut out = self.bfs_frontier(&empty);
        let ghost before = rows_of(out@);
        sort_rows(&mut out);
        proof {
            lemma_same_multiset(before, rows_of(out@));
            lemma_rows_strict(rows_of(out@));
        }
        out
    }
}

/// The two executors agree on sorted output: rows that meet the contract of `collect_dfs`
/// and rows that meet the contract of `collect_bfs`, for the same query, are the same rows
/// in the same order.
pub proof fn lemma_collect_bfs_matches_dfs<'a, Op: Operator>(
    e: &ExecutableQuery<'a, Op>,
    dfs: Seq<Seq<Value>>,
    bfs: Seq<Seq<Value>>,
)
    requires
        rows_strictly_sorted(dfs),
        dfs.to_set() == e.solutions(),
        rows_strictly_sorted(bfs),
        bfs.to_set() == e.solutions(),
    ensures
        dfs == bfs,
{
    lemma_sorted_unique(dfs, bfs);
}

/// The two executors hand their callbacks the same rows, each as often, in some order:
/// the logs returned by `execute_dfs` and `execute_bfs` for the same query have the same
/// multiset.
pub proof fn lemma_execute_bfs_matches_dfs<'a, Op: Operator>(
    e: &ExecutableQuery<'a, Op>,
    dfs: Seq<Seq<Value>>,
    bfs: Seq<Seq<Value>>,
)
    requires
        dfs.no_duplicates(),
        dfs.to_set() == e.solutions(),
        bfs.no_duplicates(),
        bfs.to_set() == e.solutions(),
    ensures
        dfs.to_multiset() == bfs.to_multiset(),
{
    lemma_distinct_same_multiset(dfs, bfs);
}

/// Collecting gives what the callback is handed, sorted: rows that meet the contract of
/// `collect_dfs` (or `collect_bfs`) and a log that meets the contract of `execute_dfs` (or
/// `execute_bfs`), for the same query, hold the same rows, each as often.
pub proof fn lemma_collected_rows_are_handed_rows<'a, Op: Operator>(
    e: &ExecutableQuery<'a, Op>,
    collected: Seq<Seq<Value>>,
    handed: Seq<Seq<Value>>,
)
    requires
        rows_strictly_sorted(collected),
        collected.to_set() == e.solutions(),
        handed.no_duplicates(),
        handed.to_set() == e.solutions(),
    ensures
        collected.to_multiset() == handed.to_multiset(),
{
    assert forall|i: int, j: int| 0 <= i < j < collected.len() implies collected[i] != collected[j] by {
        crate::sorting::lemma_lex_order(collected[i], collected[j], collected[i]);
    }
    lemma_distinct_same_multiset(collected, handed);
}

} // verus!
