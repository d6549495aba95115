//! Structural variable order picking.
//!
//! Hard rules: only grounded variables are picked (an atom grounds all its variables, an
//! operator grounds its output once its inputs are picked); a determined variable (the
//! output of an operator whose inputs are all picked) is picked at once; and join
//! variables come before singletons. Heuristic: prefer the variable most connected to the
//! variables already picked, then the one in the most atoms. Ties go to the variable
//! declared first.
use vstd::prelude::*;
use crate::ident::{Ident, views, find};
use crate::op::Operator;
use crate::join::{
    Atom, Query, Database, atom_views, all_in, positions, op_ok, op_level, op_proposes, level_ops, atoms_with,
    lemma_atoms_with, lemma_seq_max_in,
};
use crate::counting::lemma_first_index_at;
use crate::op::op_arity;
use crate::grounding::{fires, output_of, output_ops, lemma_output_ops};

verus! {

/// How many elements of `l` (with multiplicity) are in `chosen`.
pub open spec fn count_in<K>(l: Seq<K>, chosen: Seq<K>) -> nat
    decreases l.len(),
{
    if l.len() == 0 {
        0
    } else {
        count_in(l.drop_last(), chosen) + if chosen.contains(l.last()) { 1nat } else { 0nat }
    }
}

/// The number of lists that mention `v`.
pub open spec fn degree<K>(lists: Seq<Seq<K>>, v: K) -> nat
    decreases lists.len(),
{
    if lists.len() == 0 {
        0
    } else {
        degree(lists.drop_last(), v) + if lists.last().contains(v) { 1nat } else { 0nat }
    }
}

/// The number of co-occurrences of `v` with chosen variables: over the lists that mention
/// `v`, how many of their entries are chosen.
pub open spec fn connectedness<K>(lists: Seq<Seq<K>>, chosen: Seq<K>, v: K) -> nat
    decreases lists.len(),
{
    if lists.len() == 0 {
        0
    } else {
        connectedness(lists.drop_last(), chosen, v) + if lists.last().contains(v) {
            count_in(lists.last(), chosen)
        } else {
            0nat
        }
    }
}

/// The total length of the lists.
pub open spec fn total_len<K>(lists: Seq<Seq<K>>) -> nat
    decreases lists.len(),
{
    if lists.len() == 0 {
        0
    } else {
        total_len(lists.drop_last()) + lists.last().len()
    }
}

/// `v` is a strictly better pick than `w`: a join variable (in more than one list) before
/// a singleton, then the more connected, then the one in more lists.
pub open spec fn better<K>(lists: Seq<Seq<K>>, chosen: Seq<K>, v: K, w: K) -> bool {
    let dv = degree(lists, v);
    let dw = degree(lists, w);
    let cv = connectedness(lists, chosen, v);
    let cw = connectedness(lists, chosen, w);
    (dv > 1 && dw <= 1) || ((dv > 1) == (dw > 1) && (cv > cw || (cv == cw && dv > dw)))
}

/// The position of the best unchosen candidate, the first one among equals.
pub open spec fn pick<K>(lists: Seq<Seq<K>>, cands: Seq<K>, chosen: Seq<K>) -> Option<int>
    decreases cands.len(),
{
    if cands.len() == 0 {
        None
    } else {
        let b = pick(lists, cands.drop_last(), chosen);
        let i = cands.len() - 1;
        if chosen.contains(cands[i]) {
            b
        } else {
            match b {
                None => Some(i),
                Some(j) => if better(lists, chosen, cands[i], cands[j]) {
                    Some(i)
                } else {
                    b
                },
            }
        }
    }
}

/// The elements of `vs` that some list mentions, in order.
pub open spec fn mentioned<K>(vs: Seq<K>, lists: Seq<Seq<K>>) -> Seq<K>
    decreases vs.len(),
{
    if vs.len() == 0 {
        Seq::empty()
    } else if exists|a: int| 0 <= a < lists.len() && (#[trigger] lists[a]).contains(vs.last()) {
        mentioned(vs.drop_last(), lists).push(vs.last())
    } else {
        mentioned(vs.drop_last(), lists)
    }
}

/// One pass over the unfired operators in order: an operator whose output is chosen is
/// dropped; one whose inputs are all chosen fires, choosing its output, and is dropped;
/// the others are kept.
pub open spec fn fire_pass<Op: Operator, Var: View>(order: Seq<Var::V>, ops: Seq<Atom<Op, Var>>) -> (Seq<Var::V>, Seq<Atom<Op, Var>>)
    decreases ops.len(),
{
    if ops.len() == 0 {
        (order, Seq::empty())
    } else {
        let (o, k) = fire_pass(order, ops.drop_last());
        let op = ops.last();
        if o.contains(output_of(op)) {
            (o, k)
        } else if fires(o, op) {
            (o.push(output_of(op)), k)
        } else {
            (o, k.push(op))
        }
    }
}

/// Passes of firing, repeated until a pass picks nothing new: every variable that the
/// picked ones determine is picked at once.
pub open spec fn fire_all<Op: Operator, Var: View>(order: Seq<Var::V>, ops: Seq<Atom<Op, Var>>) -> (Seq<Var::V>, Seq<Atom<Op, Var>>)
    decreases ops.len(),
{
    let (o, k) = fire_pass(order, ops);
    if o.len() == order.len() || k.len() >= ops.len() {
        (o, k)
    } else {
        fire_all(o, k)
    }
}

impl<Var: Ident, Rel, Op: Operator> Query<Var, Rel, Op> {
    /// The variables of the relational atoms, then of the operators, atom by atom.
    pub open spec fn var_lists(&self) -> Seq<Seq<Var::V>> {
        self.atoms@.map_values(|a: Atom<Rel, Var>| atom_views(a)) + self.operators@.map_values(
            |a: Atom<Op, Var>| atom_views(a),
        )
    }

    /// The variables that a relational atom grounds, in declaration order.
    pub open spec fn candidates(&self) -> Seq<Var::V> {
        mentioned(views(self.vars@), self.atoms@.map_values(|a: Atom<Rel, Var>| atom_views(a)))
    }

    /// What can ever be picked: the candidates and the operators' outputs.
    pub open spec fn order_universe(&self) -> Seq<Var::V> {
        self.candidates() + output_ops(self.operators@).map_values(|op: Atom<Op, Var>| output_of(op))
    }

    /// The picking loop from the state (`order`, `unfired`): fire what can fire, until
    /// nothing more can; stop once every variable is ordered; otherwise pick the best
    /// candidate, or fail if none is left.
    pub open spec fn order_run(&self, order: Seq<Var::V>, unfired: Seq<Atom<Op, Var>>) -> Option<Seq<Var::V>>
        decreases self.order_universe().len() - order.len(),
    {
        let (o1, u1) = fire_all(order, unfired);
        if o1.len() == self.vars@.len() {
            Some(o1)
        } else {
            match pick(self.var_lists(), self.candidates(), o1) {
                None => None,
                Some(c) => {
                    let o2 = o1.push(self.candidates()[c]);
                    if order.len() < o2.len() && o2.len() <= self.order_universe().len() {
                        self.order_run(o2, u1)
                    } else {
                        None
                    }
                },
            }
        }
    }

    /// The structural variable order of the query, or `None` where picking gets stuck
    /// with variables left and no candidate to pick.
    pub open spec fn order_spec(&self) -> Option<Seq<Var::V>> {
        self.order_run(Seq::empty(), output_ops(self.operators@))
    }

    /// Every operator with an output has exactly one variable after its inputs, and the
    /// counts of atoms and variable occurrences fit in a machine word.
    pub open spec fn order_ready(&self) -> bool {
        &&& forall|k: int|
            0 <= k < self.operators@.len() && (#[trigger] self.operators@[k]).pred.spec_has_output()
                ==> self.operators@[k].vars@.len() == self.operators@[k].pred.spec_input_arity() + 1
        &&& self.var_lists().len() <= usize::MAX
        &&& total_len(self.var_lists()) <= usize::MAX
    }
}

proof fn lemma_count_in_le<K>(l: Seq<K>, chosen: Seq<K>)
    ensures
        count_in(l, chosen) <= l.len(),
    decreases l.len(),
{
    if l.len() > 0 {
        lemma_count_in_le(l.drop_last(), chosen);
    }
}

proof fn lemma_degree_le<K>(lists: Seq<Seq<K>>, v: K)
    ensures
        degree(lists, v) <= lists.len(),
    decreases lists.len(),
{
    if lists.len() > 0 {
        lemma_degree_le(lists.drop_last(), v);
    }
}

proof fn lemma_connectedness_le<K>(lists: Seq<Seq<K>>, chosen: Seq<K>, v: K)
    ensures
        connectedness(lists, chosen, v) <= total_len(lists),
    decreases lists.len(),
{
    if lists.len() > 0 {
        lemma_connectedness_le(lists.drop_last(), chosen, v);
        lemma_count_in_le(lists.last(), chosen);
    }
}

proof fn lemma_total_len_prefix<K>(lists: Seq<Seq<K>>, n: int)
    requires
        0 <= n <= lists.len(),
    ensures
        total_len(lists.take(n)) <= total_len(lists),
    decreases lists.len(),
{
    if n < lists.len() {
        assert(lists.drop_last().take(n) =~= lists.take(n));
        lemma_total_len_prefix(lists.drop_last(), n);
    } else {
        assert(lists.take(n) =~= lists);
    }
}

/// A sequence without duplicates, all of whose elements are in `t`, is no longer than `t`.
proof fn lemma_distinct_within<K>(s: Seq<K>, t: Seq<K>)
    requires
        s.no_duplicates(),
        forall|i: int| 0 <= i < s.len() ==> t.contains(#[trigger] s[i]),
    ensures
        s.len() <= t.len(),
{
    s.unique_seq_to_set();
    t.lemma_cardinality_of_set();
    assert(s.to_set().subset_of(t.to_set())) by {
        assert forall|x: K| s.to_set().contains(x) implies t.to_set().contains(x) by {
            let i = choose|i: int| 0 <= i < s.len() && s[i] == x;
            assert(t.contains(s[i]));
        }
    }
    vstd::set_lib::lemma_len_subset(s.to_set(), t.to_set());
}

/// A pass extends the order, keeps it free of duplicates, adds only outputs of the
/// operators passed over, and keeps only some of them.
proof fn lemma_fire_pass<Op: Operator, Var: View>(order: Seq<Var::V>, ops: Seq<Atom<Op, Var>>)
    ensures
        fire_pass(order, ops).0.len() >= order.len(),
        forall|i: int| 0 <= i < order.len() ==> fire_pass(order, ops).0[i] == order[i],
        order.no_duplicates() ==> fire_pass(order, ops).0.no_duplicates(),
        forall|i: int|
            order.len() <= i < fire_pass(order, ops).0.len() ==> exists|j: int|
                0 <= j < ops.len() && output_of(#[trigger] ops[j]) == #[trigger] fire_pass(order, ops).0[i],
        forall|n: int|
            0 <= n < fire_pass(order, ops).1.len() ==> ops.contains(#[trigger] fire_pass(order, ops).1[n]),
        fire_pass(order, ops).1.len() <= ops.len(),
        fire_pass(order, ops).0.len() > order.len() ==> fire_pass(order, ops).1.len() < ops.len(),
        forall|j: int|
            0 <= j < ops.len() ==> fire_pass(order, ops).1.contains(#[trigger] ops[j]) || fire_pass(order, ops).0.contains(
                output_of(ops[j]),
            ),
        fire_pass(order, ops).0.len() == order.len() ==> forall|op: Atom<Op, Var>|
            #[trigger] fire_pass(order, ops).1.contains(op) ==> !fires(fire_pass(order, ops).0, op),
    decreases ops.len(),
{
    if ops.len() > 0 {
        let init = ops.drop_last();
        lemma_fire_pass(order, init);
        let (o, k) = fire_pass(order, init);
        let op = ops.last();
        let (o2, k2) = fire_pass(order, ops);
        assert forall|j: int| 0 <= j < ops.len() implies k2.contains(#[trigger] ops[j]) || o2.contains(output_of(ops[j])) by {
            if j < init.len() {
                assert(init[j] == ops[j]);
                if k.contains(ops[j]) {
                    let n = choose|n: int| 0 <= n < k.len() && k[n] == ops[j];
                    if !o.contains(output_of(op)) && !fires(o, op) {
                        assert(k2[n] == ops[j]);
                    }
                } else {
                    let n = choose|n: int| 0 <= n < o.len() && o[n] == output_of(ops[j]);
                    if !o.contains(output_of(op)) && fires(o, op) {
                        assert(o2[n] == o[n]);
                    }
                }
            } else {
                if !o.contains(output_of(op)) && !fires(o, op) {
                    assert(k2[k.len() as int] == op);
                } else if !o.contains(output_of(op)) {
                    assert(o2[o.len() as int] == output_of(op));
                }
            }
        }
        if o2.len() == order.len() {
            assert forall|op2: Atom<Op, Var>| #[trigger] k2.contains(op2) implies !fires(o2, op2) by {
                if !k.contains(op2) {
                    let n = choose|n: int| 0 <= n < k2.len() && k2[n] == op2;
                    assert(n == k.len());
                }
            }
        }
        let (o, k) = fire_pass(order, init);
        let op = ops.last();
        let (o2, k2) = fire_pass(order, ops);
        assert forall|i: int| order.len() <= i < o2.len() implies exists|j: int|
            0 <= j < ops.len() && output_of(#[trigger] ops[j]) == #[trigger] o2[i] by {
            if i < o.len() {
                let j = choose|j: int| 0 <= j < init.len() && output_of(#[trigger] init[j]) == o[i];
                assert(ops[j] == init[j]);
            } else {
                assert(ops[ops.len() - 1] == op);
            }
        }
        assert forall|n: int| 0 <= n < k2.len() implies ops.contains(#[trigger] k2[n]) by {
            if n < k.len() {
                assert(k2[n] == k[n]);
                let m = choose|m: int| 0 <= m < init.len() && init[m] == k[n];
                assert(ops[m] == init[m]);
            } else {
                assert(ops[ops.len() - 1] == op);
            }
        }
        if order.no_duplicates() && !o.contains(output_of(op)) && fires(o, op) {
            assert forall|a: int, b: int| 0 <= a < b < o2.len() implies o2[a] != o2[b] by {
                if b == o.len() {
                    assert(o.contains(o[a]));
                }
            }
        }
    }
}

/// Repeated passes extend the order, keep it free of duplicates, add only outputs of the
/// operators passed over, and keep only some of them; every operator passed over is kept
/// or has its output in the order; and no kept operator fires on the result.
proof fn lemma_fire_all<Op: Operator, Var: View>(order: Seq<Var::V>, ops: Seq<Atom<Op, Var>>)
    ensures
        fire_all(order, ops).0.len() >= order.len(),
        forall|i: int| 0 <= i < order.len() ==> fire_all(order, ops).0[i] == order[i],
        order.no_duplicates() ==> fire_all(order, ops).0.no_duplicates(),
        forall|i: int|
            order.len() <= i < fire_all(order, ops).0.len() ==> exists|j: int|
                0 <= j < ops.len() && output_of(#[trigger] ops[j]) == #[trigger] fire_all(order, ops).0[i],
        forall|n: int|
            0 <= n < fire_all(order, ops).1.len() ==> ops.contains(#[trigger] fire_all(order, ops).1[n]),
        forall|j: int|
            0 <= j < ops.len() ==> fire_all(order, ops).1.contains(#[trigger] ops[j]) || fire_all(order, ops).0.contains(
                output_of(ops[j]),
            ),
        forall|op: Atom<Op, Var>| #[trigger] fire_all(order, ops).1.contains(op) ==> !fires(fire_all(order, ops).0, op),
    decreases ops.len(),
{
    lemma_fire_pass(order, ops);
    let (o, k) = fire_pass(order, ops);
    if !(o.len() == order.len() || k.len() >= ops.len()) {
        lemma_fire_all(o, k);
        let (o2, k2) = fire_all(o, k);
        assert forall|i: int| order.len() <= i < o2.len() implies exists|j: int|
            0 <= j < ops.len() && output_of(#[trigger] ops[j]) == #[trigger] o2[i] by {
            if i < o.len() {
                assert(o2[i] == o[i]);
            } else {
                let j = choose|j: int| 0 <= j < k.len() && output_of(#[trigger] k[j]) == o2[i];
                assert(ops.contains(k[j]));
                let m = choose|m: int| 0 <= m < ops.len() && ops[m] == k[j];
            }
        }
        assert forall|n: int| 0 <= n < k2.len() implies ops.contains(#[trigger] k2[n]) by {
            assert(k.contains(k2[n]));
            let m = choose|m: int| 0 <= m < k.len() && k[m] == k2[n];
            assert(ops.contains(k[m]));
        }
        assert forall|j: int| 0 <= j < ops.len() implies k2.contains(#[trigger] ops[j]) || o2.contains(output_of(ops[j])) by {
            if k.contains(ops[j]) {
                let m = choose|m: int| 0 <= m < k.len() && k[m] == ops[j];
                assert(k2.contains(k[m]) || o2.contains(output_of(k[m])));
            } else {
                let n = choose|n: int| 0 <= n < o.len() && o[n] == output_of(ops[j]);
                assert(o2[n] == o[n]);
            }
        }
    }
}

/// A pick is an unchosen candidate; there is none only when every candidate is chosen.
proof fn lemma_pick<K>(lists: Seq<Seq<K>>, cands: Seq<K>, chosen: Seq<K>)
    ensures
        pick(lists, cands, chosen) matches Some(i) ==> 0 <= i < cands.len() && !chosen.contains(cands[i]),
        pick(lists, cands, chosen) is None ==> forall|i: int| 0 <= i < cands.len() ==> chosen.contains(#[trigger] cands[i]),
    decreases cands.len(),
{
    if cands.len() > 0 {
        let init = cands.drop_last();
        lemma_pick(lists, init, chosen);
        assert forall|i: int| 0 <= i < init.len() implies init[i] == cands[i] by {}
    }
}

/// The candidates are among the variables.
proof fn lemma_mentioned<K>(vs: Seq<K>, lists: Seq<Seq<K>>)
    ensures
        forall|i: int| 0 <= i < mentioned(vs, lists).len() ==> vs.contains(#[trigger] mentioned(vs, lists)[i]),
        forall|x: K| #[trigger] mentioned(vs, lists).contains(x) ==> exists|a: int| 0 <= a < lists.len() && (#[trigger] lists[a]).contains(x),
    decreases vs.len(),
{
    if vs.len() > 0 {
        let init = vs.drop_last();
        lemma_mentioned(init, lists);
        let m = mentioned(init, lists);
        assert forall|i: int| 0 <= i < mentioned(vs, lists).len() implies vs.contains(#[trigger] mentioned(vs, lists)[i]) by {
            if i < m.len() {
                assert(mentioned(vs, lists)[i] == m[i]);
                let j = choose|j: int| 0 <= j < init.len() && init[j] == m[i];
                assert(vs[j] == init[j]);
            } else {
                assert(vs[vs.len() - 1] == vs.last());
            }
        }
        assert forall|x: K| #[trigger] mentioned(vs, lists).contains(x) implies exists|a: int| 0 <= a < lists.len() && (#[trigger] lists[a]).contains(x) by {
            let i = choose|i: int| 0 <= i < mentioned(vs, lists).len() && mentioned(vs, lists)[i] == x;
            if i < m.len() {
                assert(m[i] == x);
                assert(m.contains(x));
            }
        }
    }
}

/// An element of `vs` that some list mentions is mentioned.
proof fn lemma_mentioned_in<K>(vs: Seq<K>, lists: Seq<Seq<K>>, x: K, a: int)
    requires
        vs.contains(x),
        0 <= a < lists.len(),
        lists[a].contains(x),
    ensures
        mentioned(vs, lists).contains(x),
    decreases vs.len(),
{
    let init = vs.drop_last();
    if vs.last() == x {
        let m = mentioned(vs, lists);
        assert(m[m.len() - 1] == x);
    } else {
        let j = choose|j: int| 0 <= j < vs.len() && vs[j] == x;
        assert(init[j] == x);
        lemma_mentioned_in(init, lists, x, a);
        let m0 = mentioned(init, lists);
        let n = choose|n: int| 0 <= n < m0.len() && m0[n] == x;
        assert(mentioned(vs, lists)[n] == x);
    }
}

/// How many elements of `l` are in `chosen`, comparing by view.
fn count_chosen<T: Ident>(l: &[T], chosen: &[T]) -> (n: usize)
    ensures
        n == count_in(views(l@), views(chosen@)),
{
    let ghost lv = views(l@);
    let mut n: usize = 0;
    let mut j: usize = 0;
    while j < l.len()
        invariant
            j <= l@.len(),
            lv == views(l@),
            n == count_in(lv.take(j as int), views(chosen@)),
        decreases l@.len() - j,
    {
        proof {
            lemma_count_in_le(lv.take(j as int), views(chosen@));
            let t = lv.take(j as int + 1);
            assert(t.drop_last() =~= lv.take(j as int));
            assert(t.last() == l@[j as int]@);
        }
        match find(chosen, &l[j]) {
            Some(i) => {
                assert(views(chosen@)[i as int] == lv[j as int]);
                n = n + 1;
            },
            None => {},
        }
        j = j + 1;
    }
    assert(lv.take(l@.len() as int) =~= lv);
    n
}

/// Whether `v` occurs in `l`, comparing by view.
fn mentions<T: Ident>(l: &[T], v: &T) -> (b: bool)
    ensures
        b == views(l@).contains(v@),
{
    match find(l, v) {
        Some(i) => {
            assert(views(l@)[i as int] == v@);
            true
        },
        None => false,
    }
}

impl<Var: Ident, Rel, Op: Operator> Query<Var, Rel, Op> {
    proof fn lemma_lists(&self)
        ensures
            self.var_lists().len() == self.atoms@.len() + self.operators@.len(),
            forall|a: int| 0 <= a < self.atoms@.len() ==> #[trigger] self.var_lists()[a] == atom_views(self.atoms@[a]),
            forall|k: int|
                0 <= k < self.operators@.len() ==> #[trigger] self.var_lists()[self.atoms@.len() + k] == atom_views(
                    self.operators@[k],
                ),
    {
    }

    /// The number of atoms and operators that mention `v`.
    fn degree_of(&self, v: &Var) -> (d: usize)
        requires
            self.order_ready(),
        ensures
            d == degree(self.var_lists(), v@),
    {
        let ghost lists = self.var_lists();
        proof {
            self.lemma_lists();
        }
        let na = self.atoms.len();
        let mut d: usize = 0;
        let mut a: usize = 0;
        while a < na
            invariant
                a <= na,
                na == self.atoms@.len(),
                lists == self.var_lists(),
                lists.len() <= usize::MAX,
                lists.len() == self.atoms@.len() + self.operators@.len(),
                forall|a2: int| 0 <= a2 < self.atoms@.len() ==> #[trigger] lists[a2] == atom_views(self.atoms@[a2]),
                d == degree(lists.take(a as int), v@),
            decreases na - a,
        {
            proof {
                lemma_degree_le(lists.take(a as int), v@);
                let t = lists.take(a as int + 1);
                assert(t.drop_last() =~= lists.take(a as int));
                assert(t.last() == lists[a as int]);
            }
            if mentions(self.atoms[a].vars.as_slice(), v) {
                d = d + 1;
            }
            a = a + 1;
        }
        let mut k: usize = 0;
        while k < self.operators.len()
            invariant
                k <= self.operators@.len(),
                na == self.atoms@.len(),
                lists == self.var_lists(),
                lists.len() <= usize::MAX,
                lists.len() == self.atoms@.len() + self.operators@.len(),
                forall|k2: int|
                    0 <= k2 < self.operators@.len() ==> #[trigger] lists[self.atoms@.len() + k2] == atom_views(self.operators@[k2]),
                d == degree(lists.take(na + k), v@),
            decreases self.operators@.len() - k,
        {
            proof {
                lemma_degree_le(lists.take(na + k), v@);
                let t = lists.take(na + k + 1);
                assert(t.drop_last() =~= lists.take(na + k));
                assert(t.last() == lists[na + k]);
            }
            if mentions(self.operators[k].vars.as_slice(), v) {
                d = d + 1;
            }
            k = k + 1;
        }
        assert(lists.take(lists.len() as int) =~= lists);
        d
    }

    /// The number of co-occurrences of `v` with the variables in `chosen`.
    fn connectedness_of(&self, chosen: &[Var], v: &Var) -> (c: usize)
        requires
            self.order_ready(),
        ensures
            c == connectedness(self.var_lists(), views(chosen@), v@),
    {
        let ghost lists = self.var_lists();
        let ghost cv = views(chosen@);
        proof {
            self.lemma_lists();
        }
        let na = self.atoms.len();
        let mut c: usize = 0;
        let mut a: usize = 0;
        while a < na
            invariant
                a <= na,
                na == self.atoms@.len(),
                lists == self.var_lists(),
                cv == views(chosen@),
                total_len(lists) <= usize::MAX,
                lists.len() == self.atoms@.len() + self.operators@.len(),
                forall|a2: int| 0 <= a2 < self.atoms@.len() ==> #[trigger] lists[a2] == atom_views(self.atoms@[a2]),
                c == connectedness(lists.take(a as int), cv, v@),
            decreases na - a,
        {
            proof {
                let t = lists.take(a as int + 1);
                assert(t.drop_last() =~= lists.take(a as int));
                assert(t.last() == lists[a as int]);
                lemma_connectedness_le(t, cv, v@);
                lemma_total_len_prefix(lists, a as int + 1);
            }
            if mentions(self.atoms[a].vars.as_slice(), v) {
                let n = count_chosen(self.atoms[a].vars.as_slice(), chosen);
                c = c + n;
            }
            a = a + 1;
        }
        let mut k: usize = 0;
        while k < self.operators.len()
            invariant
                k <= self.operators@.len(),
                na == self.atoms@.len(),
                lists == self.var_lists(),
                cv == views(chosen@),
                total_len(lists) <= usize::MAX,
                lists.len() == self.atoms@.len() + self.operators@.len(),
                forall|k2: int|
                    0 <= k2 < self.operators@.len() ==> #[trigger] lists[self.atoms@.len() + k2] == atom_views(self.operators@[k2]),
                c == connectedness(lists.take(na + k), cv, v@),
            decreases self.operators@.len() - k,
        {
            proof {
                let t = lists.take(na + k + 1);
                assert(t.drop_last() =~= lists.take(na + k));
                assert(t.last() == lists[na + k]);
                lemma_connectedness_le(t, cv, v@);
                lemma_total_len_prefix(lists, na + k + 1);
            }
            if mentions(self.operators[k].vars.as_slice(), v) {
                let n = count_chosen(self.operators[k].vars.as_slice(), chosen);
                c = c + n;
            }
            k = k + 1;
        }
        assert(lists.take(lists.len() as int) =~= lists);
        c
    }

    /// The declared variables that some relational atom mentions, in declaration order.
    fn candidate_vars(&self) -> (c: Vec<Var>)
        ensures
            views(c@) == self.candidates(),
    {
        let ghost vs = views(self.vars@);
        let ghost al = self.atoms@.map_values(|a: Atom<Rel, Var>| atom_views(a));
        let mut c: Vec<Var> = Vec::new();
        let mut i: usize = 0;
        while i < self.vars.len()
            invariant
                i <= self.vars@.len(),
                vs == views(self.vars@),
                al == self.atoms@.map_values(|a: Atom<Rel, Var>| atom_views(a)),
                views(c@) == mentioned(vs.take(i as int), al),
            decreases self.vars@.len() - i,
        {
            let v = self.vars[i];
            let mut found = false;
            let mut a: usize = 0;
            while a < self.atoms.len()
                invariant
                    a <= self.atoms@.len(),
                    al == self.atoms@.map_values(|a: Atom<Rel, Var>| atom_views(a)),
                    found == exists|a2: int| 0 <= a2 < a && (#[trigger] al[a2]).contains(v@),
                decreases self.atoms@.len() - a,
            {
                if mentions(self.atoms[a].vars.as_slice(), &v) {
                    found = true;
                }
                proof {
                    assert(al[a as int] == atom_views(self.atoms@[a as int]));
                }
                a = a + 1;
            }
            let ghost c0 = views(c@);
            proof {
                let t = vs.take(i as int + 1);
                assert(t.drop_last() =~= vs.take(i as int));
                assert(t.last() == v@);
            }
            if found {
                c.push(v);
                assert(views(c@) =~= c0.push(v@));
            }
            i = i + 1;
        }
        assert(vs.take(vs.len() as int) =~= vs);
        c
    }

    /// Picks a variable order using the query's structure alone: repeatedly fires every
    /// operator whose inputs are all picked, picking its output; stops once every variable
    /// is picked; and otherwise picks the best candidate (see `better`). Returns `None`
    /// where no candidate is left to pick while variables remain, as for an ungrounded
    /// query.
    pub fn try_structural_var_order(&self) -> (r: Option<Vec<Var>>)
        requires
            self.order_ready(),
        ensures
            match r {
                Some(o) => self.order_spec() == Some(views(o@)),
                None => self.order_spec() is None,
            },
    {
        let ghost univ = self.order_universe();
        let ghost ops = self.operators@;
        let ghost outs = output_ops(ops);
        let ghost lists = self.var_lists();
        let cands = self.candidate_vars();
        proof {
            lemma_mentioned(views(self.vars@), self.atoms@.map_values(|a: Atom<Rel, Var>| atom_views(a)));
        }
        // The operators with an output, by index.
        let mut unfired: Vec<usize> = Vec::new();
        let mut k: usize = 0;
        while k < self.operators.len()
            invariant
                k <= ops.len(),
                ops == self.operators@,
                forall|n: int| 0 <= n < unfired@.len() ==> #[trigger] unfired@[n] < ops.len() && ops[unfired@[n] as int].pred.spec_has_output(),
                unfired@.map_values(|n: usize| ops[n as int]) == output_ops(ops.take(k as int)),
            decreases ops.len() - k,
        {
            let ghost u0 = unfired@;
            if self.operators[k].pred.has_output() {
                unfired.push(k);
                assert(unfired@.map_values(|n: usize| ops[n as int]) =~= u0.map_values(|n: usize| ops[n as int]).push(ops[k as int]));
            }
            proof {
                let t = ops.take(k as int + 1);
                assert(t.drop_last() =~= ops.take(k as int));
                assert(t.last() == ops[k as int]);
            }
            k = k + 1;
        }
        assert(ops.take(ops.len() as int) =~= ops);
        let mut order: Vec<Var> = Vec::new();
        assert(views(order@) =~= Seq::<Var::V>::empty());
        proof {
            assert forall|n: int| 0 <= n < unfired@.len() implies outs.contains(#[trigger] ops[unfired@[n] as int]) by {
                assert(unfired@.map_values(|n: usize| ops[n as int])[n] == ops[unfired@[n] as int]);
            }
        }
        loop
            invariant
                self.order_ready(),
                univ == self.order_universe(),
                ops == self.operators@,
                outs == output_ops(ops),
                lists == self.var_lists(),
                views(cands@) == self.candidates(),
                forall|n: int| 0 <= n < unfired@.len() ==> #[trigger] unfired@[n] < ops.len() && ops[unfired@[n] as int].pred.spec_has_output(),
                forall|n: int| 0 <= n < unfired@.len() ==> outs.contains(#[trigger] ops[unfired@[n] as int]),
                views(order@).no_duplicates(),
                forall|i: int| 0 <= i < order@.len() ==> univ.contains(#[trigger] views(order@)[i]),
                order@.len() <= univ.len(),
                self.order_run(views(order@), unfired@.map_values(|n: usize| ops[n as int])) == self.order_spec(),
            decreases univ.len() - order@.len(),
        {
            // Fire every operator whose inputs are all picked, until none is left to fire.
            let ghost o_start = views(order@);
            let ghost u_start = unfired@.map_values(|n: usize| ops[n as int]);
            let mut firing = true;
            while firing
                invariant
                    self.order_ready(),
                    univ == self.order_universe(),
                    ops == self.operators@,
                    outs == output_ops(ops),
                    forall|n: int| 0 <= n < unfired@.len() ==> #[trigger] unfired@[n] < ops.len() && ops[unfired@[n] as int].pred.spec_has_output(),
                    forall|n: int| 0 <= n < unfired@.len() ==> outs.contains(#[trigger] ops[unfired@[n] as int]),
                    views(order@).no_duplicates(),
                    forall|i: int| 0 <= i < order@.len() ==> univ.contains(#[trigger] views(order@)[i]),
                    order@.len() <= univ.len(),
                    o_start.len() <= order@.len(),
                    firing ==> fire_all(views(order@), unfired@.map_values(|n: usize| ops[n as int])) == fire_all(o_start, u_start),
                    !firing ==> (views(order@), unfired@.map_values(|n: usize| ops[n as int])) == fire_all(o_start, u_start),
                decreases unfired@.len() + if firing { 1int } else { 0int },
            {
                let before = order.len();
                let ghost o0 = views(order@);
                let ghost u0 = unfired@.map_values(|n: usize| ops[n as int]);
                let ghost old_len = unfired@.len();
                // Fire every operator whose inputs are all picked.
                let mut kept: Vec<usize> = Vec::new();
                let mut j: usize = 0;
                while j < unfired.len()
                    invariant
                        j <= unfired@.len(),
                        ops == self.operators@,
                        self.order_ready(),
                        forall|n: int| 0 <= n < unfired@.len() ==> #[trigger] unfired@[n] < ops.len() && ops[unfired@[n] as int].pred.spec_has_output(),
                        forall|n: int| 0 <= n < kept@.len() ==> #[trigger] kept@[n] < ops.len() && ops[kept@[n] as int].pred.spec_has_output(),
                        u0 == unfired@.map_values(|n: usize| ops[n as int]),
                        (views(order@), kept@.map_values(|n: usize| ops[n as int])) == fire_pass(o0, u0.take(j as int)),
                    decreases unfired@.len() - j,
                {
                    let op = &self.operators[unfired[j]];
                    let n_in = op.pred.input_arity();
                    proof {
                        assert(ops[unfired@[j as int] as int] == *op);
                        assert(op.pred.spec_has_output());
                        assert(u0[j as int] == *op);
                    }
                    let ghost ov = views(order@);
                    let ghost kv = kept@.map_values(|n: usize| ops[n as int]);
                    proof {
                        let t = u0.take(j as int + 1);
                        assert(t.drop_last() =~= u0.take(j as int));
                        assert(t.last() == *op);
                    }
                    let out = op.vars[n_in];
                    assert(out@ == output_of(*op));
                    if mentions(order.as_slice(), &out) {
                        // Its output is already picked.
                    } else {
                        let mut all_in = true;
                        let mut i: usize = 0;
                        while i < n_in
                            invariant
                                i <= n_in,
                                n_in == op.pred.spec_input_arity(),
                                n_in < op.vars@.len(),
                                all_in == forall|i2: int| 0 <= i2 < i ==> views(order@).contains(#[trigger] atom_views(*op)[i2]),
                            decreases n_in - i,
                        {
                            if !mentions(order.as_slice(), &op.vars[i]) {
                                all_in = false;
                            }
                            assert(atom_views(*op)[i as int] == op.vars@[i as int]@);
                            i = i + 1;
                        }
                        assert(all_in == fires(ov, *op));
                        if all_in {
                            order.push(out);
                            assert(views(order@) =~= ov.push(out@));
                        } else {
                            kept.push(unfired[j]);
                            assert(kept@.map_values(|n: usize| ops[n as int]) =~= kv.push(*op));
                        }
                    }
                    j = j + 1;
                }
                proof {
                    assert(u0.take(unfired@.len() as int) =~= u0);
                    lemma_fire_pass(o0, u0);
                    let o1 = views(order@);
                    assert forall|i: int| 0 <= i < o1.len() implies univ.contains(#[trigger] o1[i]) by {
                        if i < o0.len() {
                            assert(o1[i] == o0[i]);
                        } else {
                            let jj = choose|jj: int| 0 <= jj < u0.len() && output_of(#[trigger] u0[jj]) == o1[i];
                            assert(u0[jj] == ops[unfired@[jj] as int]);
                            assert(outs.contains(u0[jj]));
                            let m = choose|m: int| 0 <= m < outs.len() && outs[m] == u0[jj];
                            let outv = outs.map_values(|op: Atom<Op, Var>| output_of(op));
                            assert(outv[m] == o1[i]);
                            assert(univ[self.candidates().len() + m] == o1[i]);
                        }
                    }
                    let kv = kept@.map_values(|n: usize| ops[n as int]);
                    assert forall|n: int| 0 <= n < kept@.len() implies outs.contains(#[trigger] ops[kept@[n] as int]) by {
                        assert(kv[n] == ops[kept@[n] as int]);
                        assert(u0.contains(kv[n]));
                        let m = choose|m: int| 0 <= m < u0.len() && u0[m] == kv[n];
                        assert(u0[m] == ops[unfired@[m] as int]);
                    }
                    lemma_distinct_within(o1, univ);
                }
                unfired = kept;
                proof {
                    let o1 = views(order@);
                    let k1 = unfired@.map_values(|n: usize| ops[n as int]);
                    assert((o1, k1) == fire_pass(o0, u0));
                    assert(u0.len() == old_len);
                    assert(k1.len() == unfired@.len());
                    assert(o0.len() == before);
                }
                if order.len() == before {
                    firing = false;
                }
            }
            if order.len() == self.vars.len() {
                return Some(order);
            }
            // Pick the best candidate.
            let ghost o1 = views(order@);
            let mut best: Option<usize> = None;
            let mut best_deg: usize = 0;
            let mut best_conn: usize = 0;
            let mut c: usize = 0;
            while c < cands.len()
                invariant
                    c <= cands@.len(),
                    self.order_ready(),
                    lists == self.var_lists(),
                    o1 == views(order@),
                    match pick(lists, views(cands@).take(c as int), o1) {
                        None => best is None,
                        Some(i) => best == Some(i as usize),
                    },
                    best matches Some(b) ==> b < c && best_deg == degree(lists, cands@[b as int]@) && best_conn == connectedness(
                        lists,
                        o1,
                        cands@[b as int]@,
                    ),
                decreases cands@.len() - c,
            {
                let ghost cv = views(cands@);
                proof {
                    let t = cv.take(c as int + 1);
                    assert(t.drop_last() =~= cv.take(c as int));
                    assert(t[c as int] == cands@[c as int]@);
                    lemma_pick(lists, cv.take(c as int), o1);
                    if best is Some {
                        assert(t[best->0 as int] == cv[best->0 as int]);
                    }
                }
                if !mentions(order.as_slice(), &cands[c]) {
                    let d = self.degree_of(&cands[c]);
                    let cn = self.connectedness_of(order.as_slice(), &cands[c]);
                    match best {
                        None => {
                            best = Some(c);
                            best_deg = d;
                            best_conn = cn;
                        },
                        Some(b) => {
                            let join_c = d > 1;
                            let join_b = best_deg > 1;
                            if (join_c && !join_b) || (join_c == join_b && (cn > best_conn || (cn == best_conn && d > best_deg))) {
                                best = Some(c);
                                best_deg = d;
                                best_conn = cn;
                            }
                        },
                    }
                }
                c = c + 1;
            }
            assert(views(cands@).take(cands@.len() as int) =~= views(cands@));
            proof {
                lemma_pick(lists, views(cands@), o1);
            }
            match best {
                None => {
                    return None;
                },
                Some(b) => {
                    let ghost u1 = unfired@.map_values(|n: usize| ops[n as int]);
                    order.push(cands[b]);
                    proof {
                        let o2 = views(order@);
                        assert(o2 =~= o1.push(self.candidates()[b as int]));
                        assert(univ[b as int] == self.candidates()[b as int]);
                        assert forall|i: int| 0 <= i < o2.len() implies univ.contains(#[trigger] o2[i]) by {
                            if i < o1.len() {
                                assert(o2[i] == o1[i]);
                            }
                        }
                        assert forall|a: int, b2: int| 0 <= a < b2 < o2.len() implies o2[a] != o2[b2] by {
                            if b2 == o1.len() {
                                assert(o1.contains(o1[a]));
                            }
                        }
                        lemma_distinct_within(o2, univ);
                    }
                },
            }
        }
    }

    /// Picks a variable order using the query's structure alone; see
    /// `try_structural_var_order`. On a grounded query picking never gets stuck.
    pub fn structural_var_order(&self) -> (order: Vec<Var>)
        requires
            self.order_ready(),
            self.order_grounded(),
        ensures
            self.order_spec() == Some(views(order@)),
    {
        proof {
            self.lemma_order_some();
        }
        self.try_structural_var_order().unwrap()
    }

    /// The variables are distinct, the atoms and the operators with an output use declared
    /// variables only, and every variable is grounded.
    pub open spec fn order_grounded(&self) -> bool {
        &&& views(self.vars@).no_duplicates()
        &&& forall|a: int, j: int|
            0 <= a < self.atoms@.len() && 0 <= j < self.atoms@[a].vars@.len() ==> views(self.vars@).contains(
                #[trigger] atom_views(self.atoms@[a])[j],
            )
        &&& forall|k: int, j: int|
            0 <= k < self.operators@.len() && self.operators@[k].pred.spec_has_output() && 0 <= j
                < self.operators@[k].vars@.len() ==> views(self.vars@).contains(#[trigger] atom_views(self.operators@[k])[j])
        &&& forall|j: int| 0 <= j < self.vars@.len() ==> self.ground_spec().contains(#[trigger] views(self.vars@)[j])
    }

    /// Every operator with an output whose inputs are all in `o` has its output in `o`.
    pub open spec fn order_closed(&self, o: Seq<Var::V>) -> bool {
        forall|k: int|
            0 <= k < self.operators@.len() && self.operators@[k].pred.spec_has_output() && fires(
                o,
                #[trigger] self.operators@[k],
            ) ==> o.contains(output_of(self.operators@[k]))
    }

    /// A justified order holds declared variables only, and lies within the universe.
    proof fn lemma_justified_declared(&self, o: Seq<Var::V>)
        requires
            self.order_ready(),
            self.order_grounded(),
            self.order_justified(o),
        ensures
            forall|i: int| 0 <= i < o.len() ==> views(self.vars@).contains(#[trigger] o[i]),
            forall|i: int| 0 <= i < o.len() ==> self.order_universe().contains(#[trigger] o[i]),
    {
        let vs = views(self.vars@);
        let ops = self.operators@;
        lemma_mentioned(vs, self.atoms@.map_values(|a: Atom<Rel, Var>| atom_views(a)));
        lemma_output_ops(ops);
        let outs = output_ops(ops);
        let univ = self.order_universe();
        assert forall|i: int| 0 <= i < o.len() implies vs.contains(#[trigger] o[i]) && univ.contains(o[i]) by {
            if self.candidates().contains(o[i]) {
                let m = choose|m: int| 0 <= m < self.candidates().len() && self.candidates()[m] == o[i];
                assert(univ[m] == o[i]);
            } else {
                let k = choose|k: int| 0 <= k < ops.len() && fired_at(#[trigger] ops[k], o, i);
                let op = ops[k];
                assert(op.vars@.len() == op.pred.spec_input_arity() + 1);
                assert(vs.contains(atom_views(op)[op.pred.spec_input_arity() as int]));
                assert(outs.contains(op));
                let m = choose|m: int| 0 <= m < outs.len() && outs[m] == op;
                let outv = outs.map_values(|op2: Atom<Op, Var>| output_of(op2));
                assert(outv[m] == o[i]);
                assert(univ[self.candidates().len() + m] == o[i]);
            }
        }
    }

    /// A closed order that holds every candidate holds every grounded variable.
    proof fn lemma_closed_grounded(&self, o: Seq<Var::V>, n: int)
        requires
            self.order_grounded(),
            self.order_closed(o),
            forall|c: int| 0 <= c < self.candidates().len() ==> o.contains(#[trigger] self.candidates()[c]),
            0 <= n <= self.ground_spec().len(),
        ensures
            forall|i: int| 0 <= i < n ==> o.contains(#[trigger] self.ground_spec()[i]),
        decreases n,
    {
        if n > 0 {
            self.lemma_closed_grounded(o, n - 1);
            let g = self.ground_spec();
            let i = n - 1;
            self.lemma_ground_derived();
            let vs = views(self.vars@);
            let lists = self.atoms@.map_values(|a: Atom<Rel, Var>| atom_views(a));
            if exists|a: int, j: int| 0 <= a < self.atoms@.len() && 0 <= j < self.atoms@[a].vars@.len() && #[trigger] g[i]
                == atom_views(self.atoms@[a])[j] {
                let (a, j) = choose|a: int, j: int|
                    0 <= a < self.atoms@.len() && 0 <= j < self.atoms@[a].vars@.len() && #[trigger] g[i] == atom_views(self.atoms@[a])[j];
                assert(vs.contains(atom_views(self.atoms@[a])[j]));
                assert(lists[a] == atom_views(self.atoms@[a]));
                assert(lists[a][j] == g[i]);
                lemma_mentioned_in(vs, lists, g[i], a);
                let c = choose|c: int| 0 <= c < self.candidates().len() && self.candidates()[c] == g[i];
                assert(o.contains(self.candidates()[c]));
            } else {
                let k = choose|k: int|
                    0 <= k < self.operators@.len() && self.operators@[k].pred.spec_has_output() && output_of(
                        #[trigger] self.operators@[k],
                    ) == g[i] && fires(g.take(i), self.operators@[k]);
                let op = self.operators@[k];
                assert forall|j: int| 0 <= j < op.pred.spec_input_arity() implies o.contains(#[trigger] atom_views(op)[j]) by {
                    assert(g.take(i).contains(atom_views(op)[j]));
                    let m = choose|m: int| 0 <= m < i && g.take(i)[m] == atom_views(op)[j];
                    assert(o.contains(g[m]));
                }
                assert(fires(o, op));
            }
        }
    }

    /// The picking loop never gets stuck on a grounded query, from a justified state in
    /// which every operator left out of `unfired` has its output in the order.
    proof fn lemma_order_run_some(&self, order: Seq<Var::V>, unfired: Seq<Atom<Op, Var>>)
        requires
            self.order_ready(),
            self.order_grounded(),
            self.order_justified(order),
            order.no_duplicates(),
            forall|n: int| 0 <= n < unfired.len() ==> self.operators@.contains(#[trigger] unfired[n]) && unfired[n].pred.spec_has_output(),
            forall|k: int|
                0 <= k < self.operators@.len() && self.operators@[k].pred.spec_has_output() ==> unfired.contains(
                    #[trigger] self.operators@[k],
                ) || order.contains(output_of(self.operators@[k])),
        ensures
            self.order_run(order, unfired) is Some,
        decreases self.order_universe().len() - order.len(),
    {
        let (o1, u1) = fire_all(order, unfired);
        let ops = self.operators@;
        let vs = views(self.vars@);
        self.lemma_fire_all_justified(order, unfired);
        lemma_fire_all(order, unfired);
        // Every operator left out has its output in the order, and none kept fires.
        assert forall|k: int| 0 <= k < ops.len() && ops[k].pred.spec_has_output() implies u1.contains(#[trigger] ops[k])
            || o1.contains(output_of(ops[k])) by {
            if unfired.contains(ops[k]) {
                let j = choose|j: int| 0 <= j < unfired.len() && unfired[j] == ops[k];
                assert(u1.contains(unfired[j]) || o1.contains(output_of(unfired[j])));
            } else {
                let m = choose|m: int| 0 <= m < order.len() && order[m] == output_of(ops[k]);
                assert(o1[m] == order[m]);
            }
        }
        assert(self.order_closed(o1));
        self.lemma_justified_declared(o1);
        if o1.len() != self.vars@.len() {
            lemma_pick(self.var_lists(), self.candidates(), o1);
            if pick(self.var_lists(), self.candidates(), o1) is None {
                self.lemma_closed_grounded(o1, self.ground_spec().len() as int);
                assert forall|j: int| 0 <= j < vs.len() implies o1.contains(#[trigger] vs[j]) by {
                    let g = self.ground_spec();
                    let m = choose|m: int| 0 <= m < g.len() && g[m] == vs[j];
                    assert(o1.contains(g[m]));
                }
                lemma_distinct_within(o1, vs);
                lemma_distinct_within(vs, o1);
                assert(false);
            }
            let c = pick(self.var_lists(), self.candidates(), o1)->0;
            let o2 = o1.push(self.candidates()[c]);
            assert(o2.no_duplicates()) by {
                assert forall|a: int, b: int| 0 <= a < b < o2.len() implies o2[a] != o2[b] by {
                    if b == o1.len() {
                        assert(o1.contains(o1[a]));
                    }
                }
            }
            assert forall|i: int| 0 <= i < o2.len() implies self.candidates().contains(#[trigger] o2[i]) || exists|k2: int|
                0 <= k2 < ops.len() && fired_at(#[trigger] ops[k2], o2, i) by {
                if i < o1.len() {
                    assert(o2[i] == o1[i]);
                    assert(o2.take(i) =~= o1.take(i));
                    if !self.candidates().contains(o1[i]) {
                        let k2 = choose|k2: int| 0 <= k2 < ops.len() && fired_at(#[trigger] ops[k2], o1, i);
                        assert(fired_at(ops[k2], o2, i));
                    }
                } else {
                    assert(self.candidates().contains(self.candidates()[c]));
                }
            }
            self.lemma_justified_declared(o2);
            lemma_distinct_within(o2, self.order_universe());
            assert forall|n: int| 0 <= n < u1.len() implies self.operators@.contains(#[trigger] u1[n]) && u1[n].pred.spec_has_output() by {
                assert(unfired.contains(u1[n]));
                let m = choose|m: int| 0 <= m < unfired.len() && unfired[m] == u1[n];
                assert(self.operators@.contains(unfired[m]));
            }
            assert forall|k: int| 0 <= k < ops.len() && ops[k].pred.spec_has_output() implies u1.contains(#[trigger] ops[k])
                || o2.contains(output_of(ops[k])) by {
                if !u1.contains(ops[k]) {
                    let m = choose|m: int| 0 <= m < o1.len() && o1[m] == output_of(ops[k]);
                    assert(o2[m] == o1[m]);
                }
            }
            self.lemma_order_run_some(o2, u1);
        }
    }

    /// Picking never gets stuck on a grounded query.
    pub proof fn lemma_order_some(&self)
        requires
            self.order_ready(),
            self.order_grounded(),
        ensures
            self.order_spec() is Some,
    {
        let ops = self.operators@;
        lemma_output_ops(ops);
        assert forall|n: int| 0 <= n < output_ops(ops).len() implies self.operators@.contains(#[trigger] output_ops(ops)[n])
            && output_ops(ops)[n].pred.spec_has_output() by {
            assert(output_ops(ops).contains(output_ops(ops)[n]));
        }
        assert forall|k: int| 0 <= k < ops.len() && ops[k].pred.spec_has_output() implies output_ops(ops).contains(#[trigger] ops[k])
            || Seq::<Var::V>::empty().contains(output_of(ops[k])) by {}
        self.lemma_order_run_some(Seq::empty(), output_ops(ops));
    }
}

/// A level whose variable some operator proposes has a proposer.
proof fn lemma_level_ops_some<Op: Operator, Var: View>(ops: Seq<Atom<Op, Var>>, ov: Seq<Var::V>, i: int, k: int)
    requires
        0 <= k < ops.len(),
        op_level(ops[k], ov) == i,
        op_proposes(ops[k], ov),
    ensures
        level_ops(ops, ov, i).0 is Some,
    decreases ops.len(),
{
    let init = ops.drop_last();
    if k < ops.len() - 1 {
        assert(init[k] == ops[k]);
        lemma_level_ops_some(init, ov, i, k);
    }
}

/// Operator `op` has an output, which is `o[i]`, and its inputs all come before it in `o`.
pub open spec fn fired_at<Op: Operator, Var: View>(op: Atom<Op, Var>, o: Seq<Var::V>, i: int) -> bool {
    &&& op.pred.spec_has_output()
    &&& output_of(op) == o[i]
    &&& fires(o.take(i), op)
}

impl<Var: Ident, Rel, Op: Operator> Query<Var, Rel, Op> {
    /// Every variable of `o` is a candidate, or the output of an operator whose inputs all
    /// come before it.
    pub open spec fn order_justified(&self, o: Seq<Var::V>) -> bool {
        forall|i: int|
            0 <= i < o.len() ==> self.candidates().contains(#[trigger] o[i]) || exists|k: int|
                0 <= k < self.operators@.len() && fired_at(#[trigger] self.operators@[k], o, i)
    }

    /// A pass of firing keeps the order justified.
    proof fn lemma_fire_pass_justified(&self, order: Seq<Var::V>, ops: Seq<Atom<Op, Var>>)
        requires
            self.order_justified(order),
            forall|n: int| 0 <= n < ops.len() ==> self.operators@.contains(#[trigger] ops[n]) && ops[n].pred.spec_has_output(),
        ensures
            self.order_justified(fire_pass(order, ops).0),
        decreases ops.len(),
    {
        if ops.len() > 0 {
            let init = ops.drop_last();
            assert forall|n: int| 0 <= n < init.len() implies self.operators@.contains(#[trigger] init[n]) && init[n].pred.spec_has_output() by {
                assert(init[n] == ops[n]);
            }
            self.lemma_fire_pass_justified(order, init);
            let (o, k) = fire_pass(order, init);
            let op = ops.last();
            let o2 = fire_pass(order, ops).0;
            if !o.contains(output_of(op)) && fires(o, op) {
                assert(o2 == o.push(output_of(op)));
                assert(self.operators@.contains(ops[ops.len() - 1]));
                let kk = choose|kk: int| 0 <= kk < self.operators@.len() && self.operators@[kk] == op;
                assert forall|i: int| 0 <= i < o2.len() implies self.candidates().contains(#[trigger] o2[i]) || exists|k2: int|
                    0 <= k2 < self.operators@.len() && fired_at(#[trigger] self.operators@[k2], o2, i) by {
                    assert(o2.take(i) =~= if i < o.len() { o.take(i) } else { o });
                    if i < o.len() {
                        assert(o2[i] == o[i]);
                        if !self.candidates().contains(o[i]) {
                            let k2 = choose|k2: int| 0 <= k2 < self.operators@.len() && fired_at(#[trigger] self.operators@[k2], o, i);
                            assert(fired_at(self.operators@[k2], o2, i));
                        }
                    } else {
                        assert(fired_at(self.operators@[kk], o2, i));
                    }
                }
            }
        }
    }

    /// Repeated passes of firing keep the order justified.
    proof fn lemma_fire_all_justified(&self, order: Seq<Var::V>, ops: Seq<Atom<Op, Var>>)
        requires
            self.order_justified(order),
            forall|n: int| 0 <= n < ops.len() ==> self.operators@.contains(#[trigger] ops[n]) && ops[n].pred.spec_has_output(),
        ensures
            self.order_justified(fire_all(order, ops).0),
        decreases ops.len(),
    {
        self.lemma_fire_pass_justified(order, ops);
        lemma_fire_pass(order, ops);
        let (o, k) = fire_pass(order, ops);
        if !(o.len() == order.len() || k.len() >= ops.len()) {
            assert forall|n: int| 0 <= n < k.len() implies self.operators@.contains(#[trigger] k[n]) && k[n].pred.spec_has_output() by {
                assert(ops.contains(k[n]));
                let m = choose|m: int| 0 <= m < ops.len() && ops[m] == k[n];
                assert(self.operators@.contains(ops[m]));
            }
            self.lemma_fire_all_justified(o, k);
        }
    }

    /// The picking loop keeps the order justified and free of duplicates, and ends with as
    /// many variables as the query declares.
    proof fn lemma_order_run_justified(&self, order: Seq<Var::V>, unfired: Seq<Atom<Op, Var>>)
        requires
            self.order_justified(order),
            order.no_duplicates(),
            forall|n: int| 0 <= n < unfired.len() ==> self.operators@.contains(#[trigger] unfired[n]) && unfired[n].pred.spec_has_output(),
        ensures
            self.order_run(order, unfired) matches Some(r) ==> self.order_justified(r) && r.no_duplicates() && r.len()
                == self.vars@.len(),
        decreases self.order_universe().len() - order.len(),
    {
        let (o1, u1) = fire_all(order, unfired);
        self.lemma_fire_all_justified(order, unfired);
        lemma_fire_all(order, unfired);
        if o1.len() != self.vars@.len() {
            lemma_pick(self.var_lists(), self.candidates(), o1);
            if let Some(c) = pick(self.var_lists(), self.candidates(), o1) {
                let o2 = o1.push(self.candidates()[c]);
                if order.len() < o2.len() && o2.len() <= self.order_universe().len() {
                    assert forall|i: int| 0 <= i < o2.len() implies self.candidates().contains(#[trigger] o2[i]) || exists|k2: int|
                        0 <= k2 < self.operators@.len() && fired_at(#[trigger] self.operators@[k2], o2, i) by {
                        if i < o1.len() {
                            assert(o2[i] == o1[i]);
                            assert(o2.take(i) =~= o1.take(i));
                            if !self.candidates().contains(o1[i]) {
                                let k2 = choose|k2: int| 0 <= k2 < self.operators@.len() && fired_at(#[trigger] self.operators@[k2], o1, i);
                                assert(fired_at(self.operators@[k2], o2, i));
                            }
                        } else {
                            assert(self.candidates().contains(self.candidates()[c]));
                        }
                    }
                    assert(o2.no_duplicates()) by {
                        assert forall|a: int, b: int| 0 <= a < b < o2.len() implies o2[a] != o2[b] by {
                            if b == o1.len() {
                                assert(o1.contains(o1[a]));
                            }
                        }
                    }
                    assert forall|n: int| 0 <= n < u1.len() implies self.operators@.contains(#[trigger] u1[n]) && u1[n].pred.spec_has_output() by {
                        assert(unfired.contains(u1[n]));
                        let m = choose|m: int| 0 <= m < unfired.len() && unfired[m] == u1[n];
                        assert(self.operators@.contains(unfired[m]));
                    }
                    self.lemma_order_run_justified(o2, u1);
                }
            }
        }
    }

}

impl<Var: Ident, Rel: Ident, Op: Operator> Query<Var, Rel, Op> {
    /// The structural order of a query that passes the check exists and fits the query:
    /// planning with it succeeds. It lists each declared variable once, and each is grounded by an
    /// atom or is the output of an operator whose inputs all come before it.
    pub proof fn lemma_structural_order_plannable<Db: Database<Rel = Rel>>(&self, db: &Db)
        requires
            self.check_spec(db) is Ok,
            self.order_ready(),
            self.vars@.len() <= usize::MAX,
            self.atoms@.len() <= usize::MAX,
        ensures
            self.order_grounded(),
            self.order_spec() is Some,
            self.plannable(self.order_spec()->0),
            self.order_spec()->0.to_set() == views(self.vars@).to_set(),
            self.order_justified(self.order_spec()->0),
    {
        let vs = views(self.vars@);
        let ops = self.operators@;
        self.lemma_check_ok(db);
        assert(self.order_grounded());
        self.lemma_order_some();
        lemma_output_ops(ops);
        assert forall|n: int| 0 <= n < output_ops(ops).len() implies self.operators@.contains(#[trigger] output_ops(ops)[n])
            && output_ops(ops)[n].pred.spec_has_output() by {
            assert(output_ops(ops).contains(output_ops(ops)[n]));
        }
        self.lemma_order_run_justified(Seq::empty(), output_ops(ops));
        let r = self.order_spec()->0;
        lemma_mentioned(vs, self.atoms@.map_values(|a: Atom<Rel, Var>| atom_views(a)));
        // The order lists declared variables only, hence all of them.
        assert forall|i: int| 0 <= i < r.len() implies vs.contains(#[trigger] r[i]) by {
            if !self.candidates().contains(r[i]) {
                let k = choose|k: int| 0 <= k < self.operators@.len() && fired_at(#[trigger] self.operators@[k], r, i);
                let op = ops[k];
                assert(op.vars@.len() == op_arity(&op.pred));
                assert(vs.contains(atom_views(op)[op.pred.spec_input_arity() as int]));
            } else {
                let m = choose|m: int| 0 <= m < self.candidates().len() && self.candidates()[m] == r[i];
            }
        }
        assert(r.to_set() =~= vs.to_set()) by {
            r.unique_seq_to_set();
            vs.unique_seq_to_set();
            assert(r.to_set().subset_of(vs.to_set())) by {
                assert forall|x: Var::V| r.to_set().contains(x) implies vs.to_set().contains(x) by {
                    let i = choose|i: int| 0 <= i < r.len() && r[i] == x;
                    assert(vs.contains(r[i]));
                }
            }
            vstd::set_lib::lemma_subset_equality(r.to_set(), vs.to_set());
        }
        assert forall|v: Var::V| vs.contains(v) implies r.contains(v) by {
            assert(vs.to_set().contains(v));
            assert(r.to_set().contains(v));
        }
        // Atoms and operators use variables of the order.
        assert forall|a: int| 0 <= a < self.atoms@.len() implies all_in(atom_views(#[trigger] self.atoms@[a]), r) by {
            assert forall|j: int| 0 <= j < atom_views(self.atoms@[a]).len() implies r.contains(#[trigger] atom_views(self.atoms@[a])[j]) by {
                assert(vs.contains(atom_views(self.atoms@[a])[j]));
            }
        }
        assert forall|k: int| 0 <= k < ops.len() implies op_ok(#[trigger] ops[k], r) by {
            assert forall|j: int| 0 <= j < atom_views(ops[k]).len() implies r.contains(#[trigger] atom_views(ops[k])[j]) by {
                assert(vs.contains(atom_views(ops[k])[j]));
            }
        }
        // Every variable has an atom or an operator that proposes it.
        assert forall|i: int| 0 <= i < r.len() implies (#[trigger] atoms_with(self.atoms@, r[i])).len() > 0 || level_ops(
            ops,
            r,
            i,
        ).0 is Some by {
            lemma_atoms_with(self.atoms@, r[i]);
            if self.candidates().contains(r[i]) {
                let lists = self.atoms@.map_values(|a: Atom<Rel, Var>| atom_views(a));
                let a = choose|a: int| 0 <= a < lists.len() && (#[trigger] lists[a]).contains(r[i]);
                assert(lists[a] == atom_views(self.atoms@[a]));
                assert(atoms_with(self.atoms@, r[i]).contains(a as usize));
            } else {
                let k = choose|k: int| 0 <= k < self.operators@.len() && fired_at(#[trigger] self.operators@[k], r, i);
                let op = ops[k];
                let v = atom_views(op);
                let pos = positions(v, r);
                let ins = op.pred.spec_input_arity() as int;
                assert(op.vars@.len() == ins + 1);
                lemma_first_index_at(r, r[i], i);
                assert(pos[ins] == i);
                assert forall|j: int| 0 <= j < pos.len() implies pos[j] <= i by {
                    if j < ins {
                        assert(r.take(i).contains(v[j]));
                        let m = choose|m: int| 0 <= m < i && r.take(i)[m] == v[j];
                        lemma_first_index_at(r, v[j], m);
                    }
                }
                lemma_seq_max_in(pos);
                assert(op_level(op, r) == i);
                assert(op_proposes(op, r));
                lemma_level_ops_some(ops, r, i, k);
            }
        }
    }
}

/// `better` is a strict order: irreflexive and transitive.
proof fn lemma_better_order<K>(lists: Seq<Seq<K>>, chosen: Seq<K>, a: K, b: K, c: K)
    ensures
        !better(lists, chosen, a, a),
        better(lists, chosen, a, b) && better(lists, chosen, b, c) ==> better(lists, chosen, a, c),
{
}

/// The pick is at least as good as every unchosen candidate.
proof fn lemma_pick_best<K>(lists: Seq<Seq<K>>, cands: Seq<K>, chosen: Seq<K>)
    ensures
        pick(lists, cands, chosen) matches Some(b) ==> forall|c: int|
            0 <= c < cands.len() && !chosen.contains(#[trigger] cands[c]) ==> !better(lists, chosen, cands[c], cands[b]),
    decreases cands.len(),
{
    if cands.len() > 0 {
        let init = cands.drop_last();
        lemma_pick_best(lists, init, chosen);
        lemma_pick(lists, init, chosen);
        let i = cands.len() - 1;
        let b0 = pick(lists, init, chosen);
        if let Some(b) = pick(lists, cands, chosen) {
            assert forall|c: int| 0 <= c < cands.len() && !chosen.contains(#[trigger] cands[c]) implies !better(
                lists,
                chosen,
                cands[c],
                cands[b],
            ) by {
                lemma_better_order(lists, chosen, cands[c], cands[i], cands[b]);
                if c < i {
                    assert(init[c] == cands[c]);
                    if let Some(j) = b0 {
                        assert(init[j] == cands[j]);
                        lemma_better_order(lists, chosen, cands[c], cands[i], cands[j]);
                    }
                }
            }
        }
    }
}

impl<Var: Ident, Rel, Op: Operator> Query<Var, Rel, Op> {
    /// Position `p` of `o` holds the output of an operator whose inputs all come before it.
    pub open spec fn fired_pos(&self, o: Seq<Var::V>, p: int) -> bool {
        exists|k: int| 0 <= k < self.operators@.len() && fired_at(#[trigger] self.operators@[k], o, p)
    }

    /// Position `p` of `o` was picked, not fired: the variables before it are closed under
    /// the operators, and no unchosen candidate was better.
    pub open spec fn picked_well(&self, o: Seq<Var::V>, p: int) -> bool {
        &&& self.order_closed(o.take(p))
        &&& forall|c: int|
            0 <= c < self.candidates().len() && !o.take(p).contains(#[trigger] self.candidates()[c]) ==> !better(
                self.var_lists(),
                o.take(p),
                self.candidates()[c],
                o[p],
            )
    }

    /// Every position of `o` was fired, or picked well.
    pub open spec fn order_rules(&self, o: Seq<Var::V>) -> bool {
        forall|p: int|
            0 <= p < o.len() ==> (self.fired_pos(o, p))
                || self.picked_well(o, p)
    }

    /// Positions added by firing are fired.
    proof fn lemma_fire_pass_fired(&self, order: Seq<Var::V>, ops: Seq<Atom<Op, Var>>)
        requires
            forall|n: int| 0 <= n < ops.len() ==> self.operators@.contains(#[trigger] ops[n]) && ops[n].pred.spec_has_output(),
        ensures
            forall|i: int|
                order.len() <= i < fire_pass(order, ops).0.len() ==> self.fired_pos(fire_pass(order, ops).0, i),
        decreases ops.len(),
    {
        if ops.len() > 0 {
            let init = ops.drop_last();
            assert forall|n: int| 0 <= n < init.len() implies self.operators@.contains(#[trigger] init[n]) && init[n].pred.spec_has_output() by {
                assert(init[n] == ops[n]);
            }
            self.lemma_fire_pass_fired(order, init);
            let (o, k) = fire_pass(order, init);
            let op = ops.last();
            let o2 = fire_pass(order, ops).0;
            lemma_fire_pass(order, init);
            if !o.contains(output_of(op)) && fires(o, op) {
                assert(self.operators@.contains(ops[ops.len() - 1]));
                let kk = choose|kk: int| 0 <= kk < self.operators@.len() && self.operators@[kk] == op;
                assert forall|i: int| order.len() <= i < o2.len() implies self.fired_pos(o2, i) by {
                    assert(o2.take(i) =~= if i < o.len() { o.take(i) } else { o });
                    if i < o.len() {
                        assert(o2[i] == o[i]);
                        assert(self.fired_pos(o, i));
                        let k2 = choose|k2: int| 0 <= k2 < self.operators@.len() && fired_at(#[trigger] self.operators@[k2], o, i);
                        assert(fired_at(self.operators@[k2], o2, i));
                    } else {
                        assert(fired_at(self.operators@[kk], o2, i));
                    }
                }
            }
        }
    }

    /// Positions added by repeated firing are fired.
    proof fn lemma_fire_all_fired(&self, order: Seq<Var::V>, ops: Seq<Atom<Op, Var>>)
        requires
            forall|n: int| 0 <= n < ops.len() ==> self.operators@.contains(#[trigger] ops[n]) && ops[n].pred.spec_has_output(),
        ensures
            forall|i: int|
                order.len() <= i < fire_all(order, ops).0.len() ==> self.fired_pos(fire_all(order, ops).0, i),
        decreases ops.len(),
    {
        self.lemma_fire_pass_fired(order, ops);
        lemma_fire_pass(order, ops);
        let (o, k) = fire_pass(order, ops);
        if !(o.len() == order.len() || k.len() >= ops.len()) {
            assert forall|n: int| 0 <= n < k.len() implies self.operators@.contains(#[trigger] k[n]) && k[n].pred.spec_has_output() by {
                assert(ops.contains(k[n]));
                let m = choose|m: int| 0 <= m < ops.len() && ops[m] == k[n];
                assert(self.operators@.contains(ops[m]));
            }
            self.lemma_fire_all_fired(o, k);
            lemma_fire_all(o, k);
            let o2 = fire_all(o, k).0;
            assert forall|i: int| order.len() <= i < o2.len() implies self.fired_pos(o2, i) by {
                if i < o.len() {
                    assert(o2[i] == o[i]);
                    assert(o2.take(i) =~= o.take(i));
                    assert(self.fired_pos(o, i));
                    let k2 = choose|k2: int| 0 <= k2 < self.operators@.len() && fired_at(#[trigger] self.operators@[k2], o, i);
                    assert(fired_at(self.operators@[k2], o2, i));
                }
            }
        }
    }

    /// The picking loop keeps to the rules: each position is fired, or picked when nothing
    /// could fire and no unchosen candidate was better.
    proof fn lemma_order_run_rules(&self, order: Seq<Var::V>, unfired: Seq<Atom<Op, Var>>)
        requires
            self.order_rules(order),
            forall|n: int| 0 <= n < unfired.len() ==> self.operators@.contains(#[trigger] unfired[n]) && unfired[n].pred.spec_has_output(),
            forall|k: int|
                0 <= k < self.operators@.len() && self.operators@[k].pred.spec_has_output() ==> unfired.contains(
                    #[trigger] self.operators@[k],
                ) || order.contains(output_of(self.operators@[k])),
        ensures
            self.order_run(order, unfired) matches Some(r) ==> self.order_rules(r),
        decreases self.order_universe().len() - order.len(),
    {
        let (o1, u1) = fire_all(order, unfired);
        let ops = self.operators@;
        lemma_fire_all(order, unfired);
        self.lemma_fire_all_fired(order, unfired);
        assert forall|k: int| 0 <= k < ops.len() && ops[k].pred.spec_has_output() implies u1.contains(#[trigger] ops[k])
            || o1.contains(output_of(ops[k])) by {
            if unfired.contains(ops[k]) {
                let j = choose|j: int| 0 <= j < unfired.len() && unfired[j] == ops[k];
                assert(u1.contains(unfired[j]) || o1.contains(output_of(unfired[j])));
            } else {
                let m = choose|m: int| 0 <= m < order.len() && order[m] == output_of(ops[k]);
                assert(o1[m] == order[m]);
            }
        }
        assert(self.order_closed(o1));
        assert forall|p: int| 0 <= p < o1.len() implies (self.fired_pos(o1, p)) || self.picked_well(o1, p) by {
            if p < order.len() {
                assert(o1.take(p) =~= order.take(p));
                assert(o1[p] == order[p]);
                if !self.picked_well(order, p) {
                    let k = choose|k: int| 0 <= k < ops.len() && fired_at(#[trigger] ops[k], order, p);
                    assert(fired_at(ops[k], o1, p));
                }
            }
        }
        if o1.len() != self.vars@.len() {
            lemma_pick(self.var_lists(), self.candidates(), o1);
            lemma_pick_best(self.var_lists(), self.candidates(), o1);
            if let Some(c) = pick(self.var_lists(), self.candidates(), o1) {
                let o2 = o1.push(self.candidates()[c]);
                if order.len() < o2.len() && o2.len() <= self.order_universe().len() {
                    assert forall|p: int| 0 <= p < o2.len() implies (self.fired_pos(o2, p)) || self.picked_well(o2, p) by {
                        assert(o2.take(p) =~= if p < o1.len() { o1.take(p) } else { o1 });
                        if p < o1.len() {
                            assert(o2[p] == o1[p]);
                            if !self.picked_well(o1, p) {
                                let k = choose|k: int| 0 <= k < ops.len() && fired_at(#[trigger] ops[k], o1, p);
                                assert(fired_at(ops[k], o2, p));
                            }
                        } else {
                            assert(o2[p] == self.candidates()[c]);
                        }
                    }
                    assert forall|n: int| 0 <= n < u1.len() implies self.operators@.contains(#[trigger] u1[n]) && u1[n].pred.spec_has_output() by {
                        assert(unfired.contains(u1[n]));
                        let m = choose|m: int| 0 <= m < unfired.len() && unfired[m] == u1[n];
                        assert(self.operators@.contains(unfired[m]));
                    }
                    assert forall|k: int| 0 <= k < ops.len() && ops[k].pred.spec_has_output() implies u1.contains(#[trigger] ops[k])
                        || o2.contains(output_of(ops[k])) by {
                        if !u1.contains(ops[k]) {
                            let m = choose|m: int| 0 <= m < o1.len() && o1[m] == output_of(ops[k]);
                            assert(o2[m] == o1[m]);
                        }
                    }
                    self.lemma_order_run_rules(o2, u1);
                }
            }
        }
    }

    /// The documented rules of the structural order. Rule 1: a determined variable is
    /// picked at once: every position after all inputs of an operator with an output and
    /// before its output holds a variable fired by some operator. Rule 2: a picked
    /// singleton (a variable in at most one atom or operator) never comes before a picked
    /// join variable.
    pub proof fn lemma_order_follows_rules(&self)
        requires
            self.order_spec() is Some,
        ensures
            ({
                let o = self.order_spec()->0;
                &&& forall|k: int, p: int, q: int|
                    0 <= k < self.operators@.len() && self.operators@[k].pred.spec_has_output() && 0 <= p < q < o.len()
                        && #[trigger] o[q] == output_of(#[trigger] self.operators@[k]) && fires(o.take(p), self.operators@[k])
                        ==> #[trigger] self.fired_pos(o, p)
                &&& forall|i: int, j: int|
                    0 <= i < j < o.len() && !(self.fired_pos(o, i))
                        && !(self.fired_pos(o, j))
                        ==> !(degree(self.var_lists(), #[trigger] o[j]) > 1 && degree(self.var_lists(), #[trigger] o[i]) <= 1)
            }),
    {
        let ops = self.operators@;
        lemma_output_ops(ops);
        assert forall|n: int| 0 <= n < output_ops(ops).len() implies self.operators@.contains(#[trigger] output_ops(ops)[n])
            && output_ops(ops)[n].pred.spec_has_output() by {
            assert(output_ops(ops).contains(output_ops(ops)[n]));
        }
        self.lemma_order_run_rules(Seq::empty(), output_ops(ops));
        self.lemma_order_run_justified(Seq::empty(), output_ops(ops));
        let o = self.order_spec()->0;
        assert forall|k: int, p: int, q: int|
            0 <= k < ops.len() && ops[k].pred.spec_has_output() && 0 <= p < q < o.len() && #[trigger] o[q] == output_of(#[trigger] ops[k])
                && fires(o.take(p), ops[k]) implies #[trigger] self.fired_pos(o, p) by {
            if !(self.fired_pos(o, p)) {
                assert(self.picked_well(o, p));
                assert(o.take(p).contains(output_of(ops[k])));
                let m = choose|m: int| 0 <= m < p && o.take(p)[m] == output_of(ops[k]);
                assert(o[m] == o[q]);
            }
        }
        assert forall|i: int, j: int|
            0 <= i < j < o.len() && !(self.fired_pos(o, i))
                && !(self.fired_pos(o, j))
            implies !(degree(self.var_lists(), #[trigger] o[j]) > 1 && degree(self.var_lists(), #[trigger] o[i]) <= 1) by {
            assert(self.picked_well(o, i));
            assert(self.candidates().contains(o[j]));
            let c = choose|c: int| 0 <= c < self.candidates().len() && self.candidates()[c] == o[j];
            assert(!o.take(i).contains(o[j])) by {
                if o.take(i).contains(o[j]) {
                    let m = choose|m: int| 0 <= m < i && o.take(i)[m] == o[j];
                    assert(o[m] == o[j]);
                }
            }
            assert(!better(self.var_lists(), o.take(i), self.candidates()[c], o[i]));
        }
    }

    /// The heuristics of the structural order. At every picked (not fired) position `p`,
    /// take any candidate `v` not picked before `p`. Then: if `v` is a join variable (in
    /// more than one atom or operator), so is `o[p]`; if they are of the same class, `v` has
    /// no more co-occurrences with the variables before `p` than `o[p]`; and if they are
    /// also equally connected, `v` is in no more atoms and operators than `o[p]`.
    pub proof fn lemma_order_heuristics(&self)
        requires
            self.order_spec() is Some,
        ensures
            ({
                let o = self.order_spec()->0;
                let lists = self.var_lists();
                forall|p: int, c: int|
                    #![trigger o.take(p).contains(self.candidates()[c])]
                    0 <= p < o.len() && !self.fired_pos(o, p) && 0 <= c < self.candidates().len()
                        && !o.take(p).contains(self.candidates()[c]) ==> {
                        let v = self.candidates()[c];
                        let dv = degree(lists, v);
                        let dp = degree(lists, o[p]);
                        let cv = connectedness(lists, o.take(p), v);
                        let cp = connectedness(lists, o.take(p), o[p]);
                        &&& (dv > 1 ==> dp > 1)
                        &&& ((dv > 1) == (dp > 1) ==> cv <= cp)
                        &&& ((dv > 1) == (dp > 1) && cv == cp ==> dv <= dp)
                    }
            }),
    {
        let ops = self.operators@;
        lemma_output_ops(ops);
        assert forall|n: int| 0 <= n < output_ops(ops).len() implies self.operators@.contains(#[trigger] output_ops(ops)[n])
            && output_ops(ops)[n].pred.spec_has_output() by {
            assert(output_ops(ops).contains(output_ops(ops)[n]));
        }
        self.lemma_order_run_rules(Seq::empty(), output_ops(ops));
        let o = self.order_spec()->0;
        assert forall|p: int, c: int|
            #![trigger o.take(p).contains(self.candidates()[c])]
            0 <= p < o.len() && !self.fired_pos(o, p) && 0 <= c < self.candidates().len()
                && !o.take(p).contains(self.candidates()[c]) implies !better(
                self.var_lists(),
                o.take(p),
                self.candidates()[c],
                o[p],
            ) by {
            assert(self.picked_well(o, p));
        }
    }
}

} // verus!
