//! What a planned, indexed and bound query computes: exactly the bindings of its variables
//! under which every atom's tuple is a row of its relation and every operator accepts its
//! tuple.
use vstd::prelude::*;
use crate::value::Value;
use crate::ident::Ident;
use crate::counting::{first_index, lemma_first_index, lemma_first_index_at, count_below, lemma_count_bijection};
use crate::op::{Operator, op_coherent};
use crate::join::{
    Database, Query, QueryPlan, ExecutableQuery, Level, Trie, IndexColumnShape, IndexShape, shape_valid, atom_views, all_in, positions,
    gather, project, levels_of, shape_spec, is_first, col_rank, trie_has, trie_wf, n_levels, row_passes, row_path,
    indexes_rows, indexes_wf, index_for, is_key, level_ok, level_ops, op_level, op_proposes, op_ok, placed,
    seq_max, atoms_with, lemma_index_for, lemma_seq_max_in, lemma_atoms_with, lemma_level_ops,
    lemma_levels_of_count,
};

verus! {

/// The number of positions below `n` that are below `m`.
proof fn lemma_count_prefix(n: int, m: int)
    requires
        0 <= m <= n,
    ensures
        count_below(n, |j: int| j < m) == m,
    decreases n,
{
    if n > m {
        lemma_count_prefix(n - 1, m);
    } else if n > 0 {
        lemma_count_prefix(n - 1, m - 1);
        crate::counting::lemma_count_ext(n - 1, |j: int| j < m - 1, |j: int| j < m);
    }
}

/// The trie level of a first occurrence is its variable's position among the order
/// positions of the atom's variables, listed in increasing order as `l`.
proof fn lemma_rank<K>(av: Seq<K>, ov: Seq<K>, l: Seq<int>, c: int)
    requires
        ov.no_duplicates(),
        all_in(av, ov),
        forall|j1: int, j2: int| 0 <= j1 < j2 < l.len() ==> #[trigger] l[j1] < #[trigger] l[j2],
        forall|j: int| 0 <= j < l.len() ==> 0 <= #[trigger] l[j] < ov.len() && av.contains(ov[l[j]]),
        forall|i: int| 0 <= i < ov.len() && av.contains(#[trigger] ov[i]) ==> l.contains(i),
        0 <= c < av.len(),
        is_first(av, c),
    ensures
        col_rank(av, ov, c) < l.len(),
        l[col_rank(av, ov, c) as int] == first_index(ov, av[c]),
{
    let x = first_index(ov, av[c]);
    lemma_first_index(ov, av[c]);
    assert(ov.contains(av[c]));
    assert(av.contains(ov[x]));
    assert(l.contains(x));
    let j0 = choose|j0: int| 0 <= j0 < l.len() && l[j0] == x;
    let t = Set::new(|v: K| av.contains(v) && first_index(ov, v) < x);
    // First occurrences before x, counted through their variables.
    let p1 = |c2: int| is_first(av, c2) && first_index(ov, av[c2]) < x;
    let f1 = |c2: int| av[c2];
    assert forall|c1: int, c2: int|
        0 <= c1 < av.len() && 0 <= c2 < av.len() && p1(c1) && p1(c2) && #[trigger] f1(c1) == #[trigger] f1(c2) implies c1 == c2 by {}
    assert forall|c2: int| 0 <= c2 < av.len() && p1(c2) implies t.contains(#[trigger] f1(c2)) by {}
    assert forall|v: K| #[trigger] t.contains(v) implies exists|c2: int| 0 <= c2 < av.len() && p1(c2) && #[trigger] f1(c2) == v by {
        lemma_first_index(av, v);
        let c2 = first_index(av, v);
        assert(p1(c2) && f1(c2) == v);
    }
    lemma_count_bijection(av.len() as int, p1, f1, t);
    // Positions of l before j0, counted through the variables they hold.
    let p2 = |j: int| j < j0;
    let f2 = |j: int| ov[l[j]];
    assert forall|j1: int, j2: int|
        0 <= j1 < l.len() && 0 <= j2 < l.len() && p2(j1) && p2(j2) && #[trigger] f2(j1) == #[trigger] f2(j2) implies j1 == j2 by {
        if j1 < j2 {
            assert(l[j1] < l[j2]);
        } else if j2 < j1 {
            assert(l[j2] < l[j1]);
        }
    }
    assert forall|j: int| 0 <= j < l.len() && p2(j) implies t.contains(#[trigger] f2(j)) by {
        assert(l[j] < l[j0]);
        lemma_first_index_at(ov, ov[l[j]], l[j]);
    }
    assert forall|v: K| #[trigger] t.contains(v) implies exists|j: int| 0 <= j < l.len() && p2(j) && #[trigger] f2(j) == v by {
        lemma_first_index(ov, v);
        let i = first_index(ov, v);
        assert(ov.contains(v)) by {
            let c2 = choose|c2: int| 0 <= c2 < av.len() && av[c2] == v;
            assert(ov.contains(av[c2]));
        }
        assert(av.contains(ov[i]));
        assert(l.contains(i));
        let j = choose|j: int| 0 <= j < l.len() && l[j] == i;
        if j >= j0 {
            if j > j0 {
                assert(l[j0] < l[j]);
            }
        }
        assert(p2(j) && f2(j) == v);
    }
    lemma_count_bijection(l.len() as int, p2, f2, t);
    lemma_count_prefix(l.len() as int, j0);
    assert(col_rank(av, ov, c) == count_below(av.len() as int, p1));
}

/// An atom's tuple under a binding passes the filters of the atom's shape: repeated
/// variables get equal values.
proof fn lemma_tuple_passes<K>(av: Seq<K>, ov: Seq<K>, s: Seq<Value>)
    requires
        all_in(av, ov),
        ov.len() <= usize::MAX,
        av.len() <= usize::MAX,
        s.len() == ov.len(),
    ensures
        row_passes(gather(s, positions(av, ov)), shape_spec(av, ov)),
{
    let g = gather(s, positions(av, ov));
    let sh = shape_spec(av, ov);
    assert forall|c: int| 0 <= c < sh.len() implies match #[trigger] sh[c] {
        IndexColumnShape::TrieLevel(_) => true,
        IndexColumnShape::EqConst(v) => g[c] == v,
        IndexColumnShape::EqColumn(j) => g[c] == g[j as int],
    } by {
        if !is_first(av, c) {
            let f = first_index(av, av[c]);
            lemma_first_index(av, av[c]);
            assert(av.contains(av[c]));
            assert(av[f] == av[c]);
            assert(positions(av, ov)[c] == positions(av, ov)[f]);
            assert(sh[c] == IndexColumnShape::EqColumn(f as usize));
        }
    }
}

/// An atom's trie holds the projection of a binding onto the atom's levels exactly when the
/// atom's tuple under the binding is a row of its relation.
proof fn lemma_atom_holds<K>(av: Seq<K>, ov: Seq<K>, l: Seq<int>, rows: Seq<Seq<Value>>, t: Trie, s: Seq<Value>)
    requires
        ov.no_duplicates(),
        all_in(av, ov),
        forall|j1: int, j2: int| 0 <= j1 < j2 < l.len() ==> #[trigger] l[j1] < #[trigger] l[j2],
        forall|j: int| 0 <= j < l.len() ==> 0 <= #[trigger] l[j] < ov.len() && av.contains(ov[l[j]]),
        forall|i: int| 0 <= i < ov.len() && av.contains(#[trigger] ov[i]) ==> l.contains(i),
        s.len() == ov.len(),
        ov.len() <= usize::MAX,
        av.len() <= usize::MAX,
        n_levels(shape_spec(av, ov)) == l.len(),
        indexes_rows(Some(t), rows, shape_spec(av, ov)),
        forall|k: int| 0 <= k < rows.len() ==> (#[trigger] rows[k]).len() == av.len(),
    ensures
        trie_has(t, project(s, l)) == rows.contains(gather(s, positions(av, ov))),
{
    let sh = shape_spec(av, ov);
    let g = gather(s, positions(av, ov));
    let path = project(s, l);
    assert forall|c: int| 0 <= c < av.len() implies #[trigger] g[c] == s[first_index(ov, av[c])] by {
        lemma_first_index(ov, av[c]);
        assert(ov.contains(av[c]));
        assert(positions(av, ov)[c] == first_index(ov, av[c]) as usize);
        assert(g[c] == s[positions(av, ov)[c] as int]);
    }
    assert forall|c: int| 0 <= c < av.len() && !is_first(av, c) implies is_first(av, first_index(av, av[c]))
        && first_index(av, av[c]) < c && av[first_index(av, av[c])] == av[c] by {
        lemma_first_index(av, av[c]);
        assert(av.contains(av[c]));
        lemma_first_index(av, av[first_index(av, av[c])]);
    }
    assert forall|c: int| 0 <= c < av.len() && is_first(av, c) implies col_rank(av, ov, c) < l.len()
        && col_rank(av, ov, c) <= av.len() && #[trigger] path[col_rank(av, ov, c) as int] == g[c] by {
        lemma_rank(av, ov, l, c);
        crate::counting::lemma_count_le(
            av.len() as int,
            |c2: int| is_first(av, c2) && first_index(ov, av[c2]) < first_index(ov, av[c]),
        );
    }
    if rows.contains(g) {
        let k = choose|k: int| 0 <= k < rows.len() && rows[k] == g;
        assert(row_passes(g, sh)) by {
            assert forall|c: int| 0 <= c < sh.len() implies match #[trigger] sh[c] {
                IndexColumnShape::TrieLevel(_) => true,
                IndexColumnShape::EqConst(v) => g[c] == v,
                IndexColumnShape::EqColumn(j) => g[c] == g[j as int],
            } by {
                if !is_first(av, c) {
                    let f = first_index(av, av[c]);
                    lemma_first_index(av, av[c]);
                    assert(av.contains(av[c]));
                    assert(g[f] == s[first_index(ov, av[f])]);
                }
            }
        }
        assert(row_path(g, sh, path)) by {
            assert forall|c: int| 0 <= c < sh.len() && (#[trigger] sh[c]) is TrieLevel implies path[sh[c]->TrieLevel_0 as int] == g[c] by {
                assert(is_first(av, c));
                assert(path[col_rank(av, ov, c) as int] == g[c]);
            }
        }
        assert(row_passes(rows[k], sh) && row_path(rows[k], sh, path));
        assert(trie_has(t, path));
    }
    if trie_has(t, path) {
        let k = choose|k: int| 0 <= k < rows.len() && row_passes(#[trigger] rows[k], sh) && row_path(rows[k], sh, path);
        let r = rows[k];
        assert forall|c: int| 0 <= c < av.len() implies #[trigger] r[c] == g[c] by {
            if is_first(av, c) {
                assert(sh[c] == IndexColumnShape::TrieLevel(col_rank(av, ov, c) as usize));
                assert(path[col_rank(av, ov, c) as int] == g[c]);
            } else {
                let f = first_index(av, av[c]);
                lemma_first_index(av, av[c]);
                assert(av.contains(av[c]));
                lemma_first_index(av, av[f]);
                assert(is_first(av, f));
                assert(sh[c] == IndexColumnShape::EqColumn(f as usize));
                assert(sh[f] == IndexColumnShape::TrieLevel(col_rank(av, ov, f) as usize));
                assert(path[col_rank(av, ov, f) as int] == g[f]);
                assert(g[f] == s[first_index(ov, av[f])]);
            }
        }
        assert(r =~= g);
        assert(rows.contains(g));
    }
}

/// Every operator of level `i` is the level's proposer or one of its filters.
proof fn lemma_level_ops_complete<Op: Operator, Var: View>(ops: Seq<crate::join::Atom<Op, Var>>, ov: Seq<Var::V>, i: int, k: int)
    requires
        0 <= k < ops.len(),
        op_level(ops[k], ov) == i,
    ensures
        level_ops(ops, ov, i).0 == Some(k) || level_ops(ops, ov, i).1.contains(k),
    decreases ops.len(),
{
    let init = ops.drop_last();
    let (pr, fl) = level_ops(init, ov, i);
    if k < ops.len() - 1 {
        assert(init[k] == ops[k]);
        lemma_level_ops_complete(init, ov, i, k);
        if fl.contains(k) {
            let j = choose|j: int| 0 <= j < fl.len() && fl[j] == k;
            let fl2 = level_ops(ops, ov, i).1;
            assert(fl2[j] == k);
        }
    } else {
        let fl2 = level_ops(ops, ov, i).1;
        if level_ops(ops, ov, i).0 != Some(k) {
            assert(fl2[fl2.len() - 1] == k);
        }
    }
}

impl<Var: Ident, Rel: Ident, Op: Operator> Query<Var, Rel, Op> {
    /// The operator at index `k` accepts its tuple under the binding `s` of the order `ov`.
    pub open spec fn op_holds(&self, ov: Seq<Var::V>, s: Seq<Value>, k: int) -> bool {
        self.operators@[k].pred.spec_check(gather(s, positions(atom_views(self.operators@[k]), ov)))
    }

    /// The operators of a plan's levels hold of a binding exactly when every operator of the
    /// query accepts its tuple, provided each operator computes exactly what it checks.
    proof fn lemma_ops_hold<'a>(&self, ov: Seq<Var::V>, p: QueryPlan<Rel, &'a Op>, s: Seq<Value>)
        requires
            self.plannable(ov),
            self.is_plan(ov, p),
            forall|k: int| 0 <= k < self.operators@.len() ==> op_coherent(&(#[trigger] self.operators@[k]).pred),
            s.len() == ov.len(),
            ov.len() <= usize::MAX,
        ensures
            (forall|i: int| 0 <= i < p.levels@.len() ==> level_ok(#[trigger] p.levels@[i], s, i)) == (forall|k: int|
                0 <= k < self.operators@.len() ==> #[trigger] self.op_holds(ov, s, k)),
    {
        let ops = self.operators@;
        // The level's proposer and filters each hold exactly when their operator does.
        assert forall|i: int| 0 <= i < p.levels@.len() implies {
            let level = #[trigger] p.levels@[i];
            let (pr, fl) = level_ops(ops, ov, i);
            &&& (pr matches Some(k) ==> (level.proposer matches Some(prop) && (prop.pred.spec_compute(
                gather(s, prop.vars@.drop_last()),
            ) == Some(s[i]) <==> self.op_holds(ov, s, k))))
            &&& forall|j: int| 0 <= j < fl.len() ==> (level.filters@[j].pred.spec_check(gather(s, level.filters@[j].vars@))
                <==> #[trigger] self.op_holds(ov, s, fl[j]))
        } by {
            let level = p.levels@[i];
            lemma_level_ops(ops, ov, i);
            let (pr, fl) = level_ops(ops, ov, i);
            if let Some(k) = pr {
                let op = ops[k];
                let prop = level.proposer->0;
                let pos = positions(atom_views(op), ov);
                let ins = op.pred.spec_input_arity() as int;
                assert(op_ok(op, ov));
                assert(placed(op, ov, prop));
                assert(pos.len() == ins + 1);
                assert(pos[ins] == i);
                assert(gather(s, pos) =~= gather(s, pos.drop_last()).push(s[i]));
                assert(gather(s, pos.drop_last()).len() == ins);
                assert(op_coherent(&op.pred));
                assert(op.pred.spec_check(gather(s, pos.drop_last()).push(s[i])) == (op.pred.spec_compute(
                    gather(s, pos.drop_last()),
                ) == Some(s[i])));
            }
            assert forall|j: int| 0 <= j < fl.len() implies (level.filters@[j].pred.spec_check(gather(s, level.filters@[j].vars@))
                <==> #[trigger] self.op_holds(ov, s, fl[j])) by {
                assert(placed(ops[fl[j]], ov, level.filters@[j]));
            }
        }
        if forall|i: int| 0 <= i < p.levels@.len() ==> level_ok(#[trigger] p.levels@[i], s, i) {
            assert forall|k: int| 0 <= k < ops.len() implies #[trigger] self.op_holds(ov, s, k) by {
                let op = ops[k];
                let pos = positions(atom_views(op), ov);
                assert(op_ok(op, ov));
                lemma_seq_max_in(pos);
                let i = op_level(op, ov);
                let j0 = choose|j0: int| 0 <= j0 < pos.len() && pos[j0] == seq_max(pos);
                lemma_first_index(ov, atom_views(op)[j0]);
                assert(ov.contains(atom_views(op)[j0]));
                assert(0 <= i < ov.len());
                lemma_level_ops_complete(ops, ov, i, k);
                let level = p.levels@[i];
                assert(level_ok(level, s, i));
                let (pr, fl) = level_ops(ops, ov, i);
                if pr != Some(k) {
                    let j = choose|j: int| 0 <= j < fl.len() && fl[j] == k;
                    assert(level.filters@[j].pred.spec_check(gather(s, level.filters@[j].vars@)));
                }
            }
        }
        if forall|k: int| 0 <= k < ops.len() ==> #[trigger] self.op_holds(ov, s, k) {
            assert forall|i: int| 0 <= i < p.levels@.len() implies level_ok(#[trigger] p.levels@[i], s, i) by {
                let level = p.levels@[i];
                lemma_level_ops(ops, ov, i);
                let (pr, fl) = level_ops(ops, ov, i);
                assert forall|f: int| 0 <= f < level.filters@.len() implies (#[trigger] level.filters@[f]).pred.spec_check(
                    gather(s, level.filters@[f].vars@),
                ) by {
                    assert(self.op_holds(ov, s, fl[f]));
                }
            }
        }
    }
}

/// Every level that lists atom `a` is among the atom's levels.
proof fn lemma_levels_of_complete<Op>(levels: Seq<Level<Op>>, a: int, i: int)
    requires
        0 <= i < levels.len(),
        levels[i].atoms@.contains(a as usize),
    ensures
        levels_of(levels, a).contains(i),
    decreases levels.len(),
{
    let init = levels.drop_last();
    if i < levels.len() - 1 {
        assert(init[i] == levels[i]);
        lemma_levels_of_complete(init, a, i);
        let j = choose|j: int| 0 <= j < levels_of(init, a).len() && levels_of(init, a)[j] == i;
        assert(levels_of(levels, a)[j] == i);
    } else {
        let l = levels_of(levels, a);
        assert(l[l.len() - 1] == i);
    }
}

impl<Var: Ident, Rel: Ident, Op: Operator> Query<Var, Rel, Op> {
    /// The atom at index `a` holds of the binding `s` of the order `ov`: its tuple is a row
    /// of its relation.
    pub open spec fn atom_holds<Db: Database<Rel = Rel>>(&self, db: &Db, ov: Seq<Var::V>, s: Seq<Value>, a: int) -> bool {
        db.rel_rows(self.atoms@[a].pred@).contains(gather(s, positions(atom_views(self.atoms@[a]), ov)))
    }

    /// The bindings of the variables of the order `ov` under which every atom and every
    /// operator of the query holds: the query's answer over `db`.
    pub open spec fn query_solutions<Db: Database<Rel = Rel>>(&self, db: &Db, ov: Seq<Var::V>) -> Set<Seq<Value>> {
        Set::new(
            |s: Seq<Value>|
                {
                    &&& s.len() == ov.len()
                    &&& forall|a: int| 0 <= a < self.atoms@.len() ==> #[trigger] self.atom_holds(db, ov, s, a)
                    &&& forall|k: int| 0 <= k < self.operators@.len() ==> #[trigger] self.op_holds(ov, s, k)
                },
        )
    }

    /// The join is correct: planning the query for a plannable order, building its indexes
    /// from `db` and binding them gives an executable query whose solutions are exactly the
    /// query's answer over `db`, provided no operator reads its own output and every
    /// operator computes exactly the outputs it checks.
    pub proof fn lemma_join_correct<'a, Db: Database<Rel = Rel>>(
        &self,
        db: &Db,
        ov: Seq<Var::V>,
        p: QueryPlan<Rel, &'a Op>,
        ix: Seq<((Rel, IndexShape), Option<Trie>)>,
        e: ExecutableQuery<'a, &'a Op>,
    )
        requires
            self.plannable(ov),
            self.outputs_not_inputs(),
            forall|k: int| 0 <= k < self.operators@.len() ==> op_coherent(&(#[trigger] self.operators@[k]).pred),
            forall|a: int|
                0 <= a < self.atoms@.len() ==> db.has_rel((#[trigger] self.atoms@[a]).pred@) && db.rel_arity(
                    self.atoms@[a].pred@,
                ) == self.atoms@[a].vars@.len(),
            self.atoms@.len() <= usize::MAX,
            forall|a: int| 0 <= a < self.atoms@.len() ==> (#[trigger] self.atoms@[a]).vars@.len() <= usize::MAX,
            ov.len() <= usize::MAX,
            self.is_plan(ov, p),
            indexes_wf(ix),
            forall|j: int| 0 <= j < ix.len() ==> indexes_rows((#[trigger] ix[j]).1, db.rel_rows(ix[j].0.0@), ix[j].0.1@),
            e.levels@ == p.levels@,
            e.tries@.len() == p.atoms@.len(),
            forall|a: int|
                0 <= a < p.atoms@.len() ==> index_for(ix, (#[trigger] p.atoms@[a]).0@, p.atoms@[a].1@) == Some(
                    Some(*e.tries@[a]),
                ),
        ensures
            e.solutions() == self.query_solutions(db, ov),
    {
        let roots = e.roots();
        let levels = p.levels@;
        assert forall|a: int| 0 <= a < self.atoms@.len() implies shape_valid(shape_spec(atom_views(#[trigger] self.atoms@[a]), ov)) by {
            let av = atom_views(self.atoms@[a]);
            assert(all_in(av, ov));
            crate::join::lemma_shape_spec_valid(av, ov);
        }
        self.lemma_plan_wf(ov, p);
        assert forall|s: Seq<Value>| e.solutions().contains(s) <==> self.query_solutions(db, ov).contains(s) by {
            self.lemma_solution(db, ov, p, ix, e, s);
        }
        assert(e.solutions() =~= self.query_solutions(db, ov));
    }

    /// A binding solves the bound query exactly when it is in the query's answer.
    proof fn lemma_solution<'a, Db: Database<Rel = Rel>>(
        &self,
        db: &Db,
        ov: Seq<Var::V>,
        p: QueryPlan<Rel, &'a Op>,
        ix: Seq<((Rel, IndexShape), Option<Trie>)>,
        e: ExecutableQuery<'a, &'a Op>,
        s: Seq<Value>,
    )
        requires
            self.plannable(ov),
            forall|k: int| 0 <= k < self.operators@.len() ==> op_coherent(&(#[trigger] self.operators@[k]).pred),
            forall|a: int|
                0 <= a < self.atoms@.len() ==> db.has_rel((#[trigger] self.atoms@[a]).pred@) && db.rel_arity(
                    self.atoms@[a].pred@,
                ) == self.atoms@[a].vars@.len(),
            self.atoms@.len() <= usize::MAX,
            forall|a: int| 0 <= a < self.atoms@.len() ==> (#[trigger] self.atoms@[a]).vars@.len() <= usize::MAX,
            ov.len() <= usize::MAX,
            self.is_plan(ov, p),
            p.wf(),
            indexes_wf(ix),
            forall|j: int| 0 <= j < ix.len() ==> indexes_rows((#[trigger] ix[j]).1, db.rel_rows(ix[j].0.0@), ix[j].0.1@),
            e.levels@ == p.levels@,
            e.tries@.len() == p.atoms@.len(),
            forall|a: int|
                0 <= a < p.atoms@.len() ==> index_for(ix, (#[trigger] p.atoms@[a]).0@, p.atoms@[a].1@) == Some(
                    Some(*e.tries@[a]),
                ),
        ensures
            e.solutions().contains(s) == self.query_solutions(db, ov).contains(s),
    {
        if s.len() == ov.len() {
            assert forall|a: int| 0 <= a < self.atoms@.len() implies trie_has(
                #[trigger] e.roots()[a],
                project(s, levels_of(e.levels@, a)),
            ) == self.atom_holds(db, ov, s, a) by {
                assert(self.atoms@[a] == self.atoms@[a]);
                assert(p.atoms@[a] == p.atoms@[a]);
                self.lemma_atom_trie(db, ov, p, ix, e, a, s);
            }
            self.lemma_ops_hold(ov, p, s);
            let roots = e.roots();
            let levels = e.levels@;
            assert(roots.len() == self.atoms@.len());
            let atoms_ok = forall|a: int| 0 <= a < roots.len() ==> trie_has(#[trigger] roots[a], project(s, levels_of(levels, a)));
            let atoms_hold = forall|a: int| 0 <= a < self.atoms@.len() ==> #[trigger] self.atom_holds(db, ov, s, a);
            assert(atoms_ok == atoms_hold) by {
                if atoms_ok {
                    assert forall|a: int| 0 <= a < self.atoms@.len() implies #[trigger] self.atom_holds(db, ov, s, a) by {
                        assert(trie_has(roots[a], project(s, levels_of(levels, a))));
                    }
                }
                if atoms_hold {
                    assert forall|a: int| 0 <= a < roots.len() implies trie_has(#[trigger] roots[a], project(s, levels_of(levels, a))) by {
                        assert(self.atom_holds(db, ov, s, a));
                    }
                }
            }
            assert(e.solutions().contains(s) == crate::join::is_solution(roots, levels, s));
        }
    }

    /// Atom `a`'s trie holds the projection of `s` onto the atom's levels exactly when the
    /// atom holds of `s`.
    proof fn lemma_atom_trie<'a, Db: Database<Rel = Rel>>(
        &self,
        db: &Db,
        ov: Seq<Var::V>,
        p: QueryPlan<Rel, &'a Op>,
        ix: Seq<((Rel, IndexShape), Option<Trie>)>,
        e: ExecutableQuery<'a, &'a Op>,
        a: int,
        s: Seq<Value>,
    )
        requires
            self.plannable(ov),
            0 <= a < self.atoms@.len(),
            s.len() == ov.len(),
            db.has_rel(self.atoms@[a].pred@),
            db.rel_arity(self.atoms@[a].pred@) == self.atoms@[a].vars@.len(),
            self.atoms@.len() <= usize::MAX,
            self.atoms@[a].vars@.len() <= usize::MAX,
            ov.len() <= usize::MAX,
            self.is_plan(ov, p),
            p.wf(),
            indexes_wf(ix),
            forall|j: int| 0 <= j < ix.len() ==> indexes_rows((#[trigger] ix[j]).1, db.rel_rows(ix[j].0.0@), ix[j].0.1@),
            e.tries@.len() == p.atoms@.len(),
            index_for(ix, p.atoms@[a].0@, p.atoms@[a].1@) == Some(Some(*e.tries@[a])),
        ensures
            trie_has(e.roots()[a], project(s, levels_of(p.levels@, a))) == self.atom_holds(db, ov, s, a),
    {
        let levels = p.levels@;
        let av = atom_views(self.atoms@[a]);
        let l = levels_of(levels, a);
        let sh = shape_spec(av, ov);
        let r = self.atoms@[a].pred@;
        lemma_levels_of_count(levels, a);
        assert forall|i: int| 0 <= i < ov.len() implies levels[i].atoms@.contains(a as usize) == av.contains(#[trigger] ov[i]) by {
            lemma_atoms_with(self.atoms@, ov[i]);
        }
        assert forall|i: int| 0 <= i < ov.len() && av.contains(#[trigger] ov[i]) implies l.contains(i) by {
            lemma_levels_of_complete(levels, a, i);
        }
        assert forall|j: int| 0 <= j < l.len() implies 0 <= #[trigger] l[j] < ov.len() && av.contains(ov[l[j]]) by {}
        assert(p.atoms@[a].0@ == r);
        assert(p.atoms@[a].1@ == sh);
        assert(n_levels(sh) == l.len());
        lemma_index_for(ix, r, sh);
        let jx = choose|jx: int| 0 <= jx < ix.len() && is_key(#[trigger] ix[jx], r, sh);
        assert(index_for(ix, r, sh) == Some(ix[jx].1));
        assert(ix[jx].1 == Some(*e.tries@[a]));
        assert(e.roots()[a] == *e.tries@[a]);
        db.lemma_rows_have_arity(r);
        assert(all_in(av, ov));
        lemma_atom_holds(av, ov, l, db.rel_rows(r), e.roots()[a], s);
    }

    /// A query with an empty index has no answer: if the index of some atom is empty, no
    /// binding makes every atom hold.
    pub proof fn lemma_empty_index_no_answer<'a, Db: Database<Rel = Rel>>(
        &self,
        db: &Db,
        ov: Seq<Var::V>,
        p: QueryPlan<Rel, &'a Op>,
        ix: Seq<((Rel, IndexShape), Option<Trie>)>,
        a: int,
    )
        requires
            0 <= a < self.atoms@.len(),
            ov.no_duplicates(),
            all_in(atom_views(self.atoms@[a]), ov),
            self.is_plan(ov, p),
            indexes_wf(ix),
            forall|j: int| 0 <= j < ix.len() ==> indexes_rows((#[trigger] ix[j]).1, db.rel_rows(ix[j].0.0@), ix[j].0.1@),
            index_for(ix, p.atoms@[a].0@, p.atoms@[a].1@) == Some(None::<Trie>),
            ov.len() <= usize::MAX,
            self.atoms@[a].vars@.len() <= usize::MAX,
        ensures
            self.query_solutions(db, ov) == Set::<Seq<Value>>::empty(),
    {
        let av = atom_views(self.atoms@[a]);
        let r = self.atoms@[a].pred@;
        let sh = shape_spec(av, ov);
        assert(p.atoms@[a].0@ == r);
        assert(p.atoms@[a].1@ == sh);
        lemma_index_for(ix, r, sh);
        let jx = choose|jx: int| 0 <= jx < ix.len() && is_key(#[trigger] ix[jx], r, sh);
        assert(ix[jx].1 == None::<Trie>);
        let rows = db.rel_rows(r);
        assert forall|s: Seq<Value>| !self.query_solutions(db, ov).contains(s) by {
            if self.query_solutions(db, ov).contains(s) {
                assert(self.atom_holds(db, ov, s, a));
                let g = gather(s, positions(av, ov));
                let k = choose|k: int| 0 <= k < rows.len() && rows[k] == g;
                assert(av.len() == self.atoms@[a].vars@.len());
                lemma_tuple_passes(av, ov, s);
                assert(!row_passes(rows[k], sh));
            }
        }
        assert(self.query_solutions(db, ov) =~= Set::<Seq<Value>>::empty());
    }
}

} // verus!
