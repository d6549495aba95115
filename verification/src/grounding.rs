//! Grounded variables: an atom grounds all its variables, and an operator with an output
//! grounds it once all its inputs are grounded. Applying these rules to saturation finds
//! the grounded variables.
use vstd::prelude::*;
use crate::ident::{Ident, views, find};
use crate::op::Operator;
use crate::join::{Atom, Query, atom_views};

verus! {

/// `s` with `x` appended, unless it already holds `x`.
pub open spec fn push_new<K>(s: Seq<K>, x: K) -> Seq<K> {
    if s.contains(x) {
        s
    } else {
        s.push(x)
    }
}

/// `s` with each element of `xs` appended in turn, unless already there.
pub open spec fn add_new<K>(s: Seq<K>, xs: Seq<K>) -> Seq<K>
    decreases xs.len(),
{
    if xs.len() == 0 {
        s
    } else {
        push_new(add_new(s, xs.drop_last()), xs.last())
    }
}

/// The variables of the atoms, each once, in order of first appearance.
pub open spec fn atom_vars_found<Rel, Var: View>(atoms: Seq<Atom<Rel, Var>>) -> Seq<Var::V>
    decreases atoms.len(),
{
    if atoms.len() == 0 {
        Seq::empty()
    } else {
        add_new(atom_vars_found(atoms.drop_last()), atom_views(atoms.last()))
    }
}

/// The operators that have an output, in order.
pub open spec fn output_ops<Op: Operator, Var>(ops: Seq<Atom<Op, Var>>) -> Seq<Atom<Op, Var>>
    decreases ops.len(),
{
    if ops.len() == 0 {
        Seq::empty()
    } else if ops.last().pred.spec_has_output() {
        output_ops(ops.drop_last()).push(ops.last())
    } else {
        output_ops(ops.drop_last())
    }
}

/// All inputs of the operator are among `found`.
pub open spec fn fires<Op: Operator, Var: View>(found: Seq<Var::V>, op: Atom<Op, Var>) -> bool {
    forall|j: int| 0 <= j < op.pred.spec_input_arity() ==> found.contains(#[trigger] atom_views(op)[j])
}

/// The output variable of an operator.
pub open spec fn output_of<Op: Operator, Var: View>(op: Atom<Op, Var>) -> Var::V {
    atom_views(op)[op.pred.spec_input_arity() as int]
}

/// One pass over the operators in order: an operator whose inputs are all found fires,
/// adding its output if new, and is dropped; the others are kept.
pub open spec fn ground_pass<Op: Operator, Var: View>(found: Seq<Var::V>, ops: Seq<Atom<Op, Var>>) -> (Seq<Var::V>, Seq<Atom<Op, Var>>)
    decreases ops.len(),
{
    if ops.len() == 0 {
        (found, Seq::empty())
    } else {
        let (f, k) = ground_pass(found, ops.drop_last());
        let op = ops.last();
        if fires(f, op) {
            (push_new(f, output_of(op)), k)
        } else {
            (f, k.push(op))
        }
    }
}

/// Passes over the operators until a pass finds nothing new.
pub open spec fn saturate<Op: Operator, Var: View>(found: Seq<Var::V>, ops: Seq<Atom<Op, Var>>) -> Seq<Var::V>
    decreases ops.len(),
{
    let (f, k) = ground_pass(found, ops);
    if f.len() == found.len() || k.len() >= ops.len() {
        f
    } else {
        saturate(f, k)
    }
}

/// The variables appended by a pass extend `found`; a pass that finds something drops an
/// operator; every operator is kept or has its output found; and after a pass that finds
/// nothing, no kept operator fires.
proof fn lemma_pass<Op: Operator, Var: View>(found: Seq<Var::V>, ops: Seq<Atom<Op, Var>>)
    ensures
        ground_pass(found, ops).0.len() >= found.len(),
        forall|i: int| 0 <= i < found.len() ==> ground_pass(found, ops).0[i] == found[i],
        ground_pass(found, ops).1.len() <= ops.len(),
        ground_pass(found, ops).0.len() > found.len() ==> ground_pass(found, ops).1.len() < ops.len(),
        forall|j: int|
            0 <= j < ops.len() ==> ground_pass(found, ops).1.contains(#[trigger] ops[j]) || ground_pass(
                found,
                ops,
            ).0.contains(output_of(ops[j])),
        ground_pass(found, ops).0.len() == found.len() ==> forall|op: Atom<Op, Var>|
            #[trigger] ground_pass(found, ops).1.contains(op) ==> !fires(ground_pass(found, ops).0, op),
        ground_pass(found, ops).0.no_duplicates() <== found.no_duplicates(),
    decreases ops.len(),
{
    if ops.len() > 0 {
        let init = ops.drop_last();
        lemma_pass(found, init);
        let (f, k) = ground_pass(found, init);
        let op = ops.last();
        let (f2, k2) = ground_pass(found, ops);
        assert forall|j: int| 0 <= j < ops.len() implies k2.contains(#[trigger] ops[j]) || f2.contains(output_of(ops[j])) by {
            if j < init.len() {
                assert(init[j] == ops[j]);
                if k.contains(ops[j]) {
                    let n = choose|n: int| 0 <= n < k.len() && k[n] == ops[j];
                    if !fires(f, op) {
                        assert(k2[n] == ops[j]);
                    }
                } else {
                    let n = choose|n: int| 0 <= n < f.len() && f[n] == output_of(ops[j]);
                    if fires(f, op) && !f.contains(output_of(op)) {
                        assert(f2[n] == f[n]);
                    }
                }
            } else {
                if !fires(f, op) {
                    assert(k2[k.len() as int] == op);
                } else if !f.contains(output_of(op)) {
                    assert(f2[f.len() as int] == output_of(op));
                }
            }
        }
        if f2.len() == found.len() {
            assert forall|op2: Atom<Op, Var>| #[trigger] k2.contains(op2) implies !fires(f2, op2) by {
                if k.contains(op2) {
                } else {
                    let n = choose|n: int| 0 <= n < k2.len() && k2[n] == op2;
                    assert(n == k.len());
                }
            }
        }
        if found.no_duplicates() {
            if fires(f, op) && !f.contains(output_of(op)) {
                assert forall|a: int, b: int| 0 <= a < b < f2.len() implies f2[a] != f2[b] by {
                    if b == f.len() {
                        assert(f.contains(f[a]));
                    }
                }
            }
        }
    }
}

/// Saturation extends `found`, and its result is closed: every operator whose inputs are
/// all in it has its output in it.
proof fn lemma_saturate<Op: Operator, Var: View>(found: Seq<Var::V>, ops: Seq<Atom<Op, Var>>)
    ensures
        saturate(found, ops).len() >= found.len(),
        forall|i: int| 0 <= i < found.len() ==> saturate(found, ops)[i] == found[i],
        forall|j: int|
            0 <= j < ops.len() && fires(saturate(found, ops), #[trigger] ops[j]) ==> saturate(found, ops).contains(
                output_of(ops[j]),
            ),
        found.no_duplicates() ==> saturate(found, ops).no_duplicates(),
    decreases ops.len(),
{
    lemma_pass(found, ops);
    let (f, k) = ground_pass(found, ops);
    if f.len() == found.len() || k.len() >= ops.len() {
        assert forall|j: int| 0 <= j < ops.len() && fires(f, #[trigger] ops[j]) implies f.contains(output_of(ops[j])) by {
            if k.contains(ops[j]) {
            }
        }
    } else {
        lemma_saturate(f, k);
        let r = saturate(f, k);
        assert forall|j: int| 0 <= j < ops.len() && fires(r, #[trigger] ops[j]) implies r.contains(output_of(ops[j])) by {
            if k.contains(ops[j]) {
                let n = choose|n: int| 0 <= n < k.len() && k[n] == ops[j];
                assert(fires(r, k[n]));
            } else {
                let n = choose|n: int| 0 <= n < f.len() && f[n] == output_of(ops[j]);
                assert(r[n] == f[n]);
            }
        }
    }
}

proof fn lemma_add_new<K>(s: Seq<K>, xs: Seq<K>)
    ensures
        add_new(s, xs).len() >= s.len(),
        forall|i: int| 0 <= i < s.len() ==> add_new(s, xs)[i] == s[i],
        forall|j: int| 0 <= j < xs.len() ==> add_new(s, xs).contains(#[trigger] xs[j]),
        s.no_duplicates() ==> add_new(s, xs).no_duplicates(),
    decreases xs.len(),
{
    if xs.len() > 0 {
        let init = xs.drop_last();
        lemma_add_new(s, init);
        let a = add_new(s, init);
        let x = xs.last();
        let r = add_new(s, xs);
        assert forall|j: int| 0 <= j < xs.len() implies r.contains(#[trigger] xs[j]) by {
            if j < init.len() {
                assert(init[j] == xs[j]);
                assert(a.contains(xs[j]));
                let n = choose|n: int| 0 <= n < a.len() && a[n] == xs[j];
                if !a.contains(x) {
                    assert(r[n] == a[n]);
                }
            } else if !a.contains(x) {
                assert(r[a.len() as int] == x);
            }
        }
        if s.no_duplicates() && !a.contains(x) {
            assert forall|i: int, j: int| 0 <= i < j < r.len() implies r[i] != r[j] by {
                if j == a.len() {
                    assert(a.contains(a[i]));
                }
            }
        }
    }
}

proof fn lemma_atom_vars_found<Rel, Var: View>(atoms: Seq<Atom<Rel, Var>>)
    ensures
        atom_vars_found(atoms).no_duplicates(),
        forall|a: int, j: int|
            0 <= a < atoms.len() && 0 <= j < atoms[a].vars@.len() ==> atom_vars_found(atoms).contains(
                #[trigger] atom_views(atoms[a])[j],
            ),
    decreases atoms.len(),
{
    if atoms.len() > 0 {
        let init = atoms.drop_last();
        lemma_atom_vars_found(init);
        let f = atom_vars_found(init);
        lemma_add_new(f, atom_views(atoms.last()));
        let r = atom_vars_found(atoms);
        assert forall|a: int, j: int| 0 <= a < atoms.len() && 0 <= j < atoms[a].vars@.len() implies r.contains(
            #[trigger] atom_views(atoms[a])[j],
        ) by {
            if a < init.len() {
                assert(init[a] == atoms[a]);
                assert(f.contains(atom_views(init[a])[j]));
                let n = choose|n: int| 0 <= n < f.len() && f[n] == atom_views(atoms[a])[j];
                assert(r[n] == f[n]);
            } else {
                assert(atom_views(atoms.last())[j] == atom_views(atoms[a])[j]);
            }
        }
    }
}

pub(crate) proof fn lemma_output_ops<Op: Operator, Var>(ops: Seq<Atom<Op, Var>>)
    ensures
        forall|k: int| 0 <= k < ops.len() && (#[trigger] ops[k]).pred.spec_has_output() ==> output_ops(ops).contains(ops[k]),
        forall|op: Atom<Op, Var>| #[trigger] output_ops(ops).contains(op) ==> ops.contains(op) && op.pred.spec_has_output(),
    decreases ops.len(),
{
    if ops.len() > 0 {
        let init = ops.drop_last();
        lemma_output_ops(init);
        let o = output_ops(init);
        let r = output_ops(ops);
        assert forall|k: int| 0 <= k < ops.len() && (#[trigger] ops[k]).pred.spec_has_output() implies r.contains(ops[k]) by {
            if k < init.len() {
                assert(init[k] == ops[k]);
                let n = choose|n: int| 0 <= n < o.len() && o[n] == ops[k];
                assert(r[n] == o[n]);
            } else {
                assert(r[o.len() as int] == ops[k]);
            }
        }
        assert forall|op: Atom<Op, Var>| #[trigger] r.contains(op) implies ops.contains(op) && op.pred.spec_has_output() by {
            let n = choose|n: int| 0 <= n < r.len() && r[n] == op;
            if n < o.len() {
                assert(o.contains(op));
                let m = choose|m: int| 0 <= m < init.len() && init[m] == op;
                assert(ops[m] == op);
            } else {
                assert(ops[ops.len() - 1] == op);
            }
        }
    }
}

impl<Var: Ident, Rel, Op: Operator> Query<Var, Rel, Op> {
    /// The grounded variables, in the order they are found: the atoms' variables in order
    /// of appearance, then the outputs found by passes over the operators.
    pub open spec fn ground_spec(&self) -> Seq<Var::V> {
        saturate(atom_vars_found(self.atoms@), output_ops(self.operators@))
    }

    /// Every operator has a variable for each input, and one more for its output if it has
    /// one.
    pub open spec fn outputs_have_vars(&self) -> bool {
        forall|k: int|
            0 <= k < self.operators@.len() ==> (#[trigger] self.operators@[k]).vars@.len() >= self.operators@[k].pred.spec_input_arity()
                && (self.operators@[k].pred.spec_has_output() ==> self.operators@[k].vars@.len()
                > self.operators@[k].pred.spec_input_arity())
    }

    /// Returns the grounded variables in the order they are found. Every operator must have
    /// at least as many variables as inputs.
    pub fn ground_vars(&self) -> (found: Vec<Var>)
        requires
            self.outputs_have_vars(),
        ensures
            views(found@) == self.ground_spec(),
    {
        let mut found: Vec<Var> = Vec::new();
        let mut a: usize = 0;
        while a < self.atoms.len()
            invariant
                a <= self.atoms@.len(),
                views(found@) == atom_vars_found(self.atoms@.take(a as int)),
            decreases self.atoms@.len() - a,
        {
            let atom = &self.atoms[a];
            let ghost before = views(found@);
            let mut j: usize = 0;
            while j < atom.vars.len()
                invariant
                    j <= atom.vars@.len(),
                    views(found@) == add_new(before, atom_views(*atom).take(j as int)),
                decreases atom.vars@.len() - j,
            {
                let v = atom.vars[j];
                let ghost f0 = views(found@);
                match find(found.as_slice(), &v) {
                    None => {
                        found.push(v);
                        assert(views(found@) =~= f0.push(v@));
                    },
                    Some(n) => {
                        assert(f0[n as int] == v@);
                    },
                }
                proof {
                    let xs = atom_views(*atom).take(j as int + 1);
                    assert(xs.drop_last() =~= atom_views(*atom).take(j as int));
                    assert(xs.last() == v@);
                    assert(views(found@) == push_new(f0, v@));
                    assert(add_new(before, xs) == push_new(add_new(before, xs.drop_last()), xs.last()));
                }
                j = j + 1;
            }
            proof {
                assert(atom_views(*atom).take(atom.vars@.len() as int) =~= atom_views(*atom));
                let t = self.atoms@.take(a as int + 1);
                assert(t.drop_last() =~= self.atoms@.take(a as int));
                assert(t.last() == *atom);
            }
            a = a + 1;
        }
        assert(self.atoms@.take(self.atoms@.len() as int) =~= self.atoms@);
        // The operators with an output, by index.
        let ghost ops = self.operators@;
        let mut opers: Vec<usize> = Vec::new();
        let mut k: usize = 0;
        while k < self.operators.len()
            invariant
                k <= ops.len(),
                ops == self.operators@,
                forall|n: int| 0 <= n < opers@.len() ==> #[trigger] opers@[n] < ops.len() && ops[opers@[n] as int].pred.spec_has_output(),
                opers@.map_values(|n: usize| ops[n as int]) == output_ops(ops.take(k as int)),
            decreases ops.len() - k,
        {
            let ghost o0 = opers@;
            if self.operators[k].pred.has_output() {
                opers.push(k);
                assert(opers@.map_values(|n: usize| ops[n as int]) =~= o0.map_values(|n: usize| ops[n as int]).push(ops[k as int]));
            }
            proof {
                let t = ops.take(k as int + 1);
                assert(t.drop_last() =~= ops.take(k as int));
                assert(t.last() == ops[k as int]);
            }
            k = k + 1;
        }
        assert(ops.take(ops.len() as int) =~= ops);
        // Pass over the remaining operators until nothing new is found.
        loop
            invariant
                ops == self.operators@,
                self.outputs_have_vars(),
                forall|n: int| 0 <= n < opers@.len() ==> #[trigger] opers@[n] < ops.len() && ops[opers@[n] as int].pred.spec_has_output(),
                saturate(views(found@), opers@.map_values(|n: usize| ops[n as int])) == self.ground_spec(),
            decreases opers@.len(),
        {
            let count = found.len();
            let ghost f0 = views(found@);
            let ghost o0 = opers@.map_values(|n: usize| ops[n as int]);
            let mut kept: Vec<usize> = Vec::new();
            let mut j: usize = 0;
            while j < opers.len()
                invariant
                    j <= opers@.len(),
                    ops == self.operators@,
                    self.outputs_have_vars(),
                    forall|n: int| 0 <= n < opers@.len() ==> #[trigger] opers@[n] < ops.len() && ops[opers@[n] as int].pred.spec_has_output(),
                    forall|n: int| 0 <= n < kept@.len() ==> #[trigger] kept@[n] < ops.len() && ops[kept@[n] as int].pred.spec_has_output(),
                    o0 == opers@.map_values(|n: usize| ops[n as int]),
                    (views(found@), kept@.map_values(|n: usize| ops[n as int])) == ground_pass(f0, o0.take(j as int)),
                decreases opers@.len() - j,
            {
                let op = &self.operators[opers[j]];
                let n_in = op.pred.input_arity();
                proof {
                    assert(ops[opers@[j as int] as int] == *op);
                    assert(op.pred.spec_has_output());
                }
                // Whether every input is found.
                let mut fires_now = true;
                let mut i: usize = 0;
                while i < n_in
                    invariant
                        i <= n_in,
                        n_in == op.pred.spec_input_arity(),
                        n_in < op.vars@.len(),
                        fires_now == forall|i2: int| 0 <= i2 < i ==> views(found@).contains(#[trigger] atom_views(*op)[i2]),
                    decreases n_in - i,
                {
                    let r = find(found.as_slice(), &op.vars[i]);
                    if r.is_none() {
                        fires_now = false;
                    }
                    proof {
                        assert(atom_views(*op)[i as int] == op.vars@[i as int]@);
                        if let Some(n) = r {
                            assert(views(found@)[n as int] == atom_views(*op)[i as int]);
                        }
                    }
                    i = i + 1;
                }
                let ghost fv = views(found@);
                let ghost kv = kept@.map_values(|n: usize| ops[n as int]);
                proof {
                    let t = o0.take(j as int + 1);
                    assert(t.drop_last() =~= o0.take(j as int));
                    assert(t.last() == *op);
                }
                assert(fires_now == fires(fv, *op));
                if fires_now {
                    let out = op.vars[n_in];
                    assert(out@ == output_of(*op));
                    match find(found.as_slice(), &out) {
                        None => {
                            found.push(out);
                            assert(views(found@) =~= fv.push(out@));
                        },
                        Some(n) => {
                            assert(fv[n as int] == out@);
                        },
                    }
                } else {
                    kept.push(opers[j]);
                    assert(kept@.map_values(|n: usize| ops[n as int]) =~= kv.push(*op));
                }
                proof {
                    let t = o0.take(j as int + 1);
                    assert(ground_pass(f0, t) == (if fires(fv, *op) {
                        (push_new(fv, output_of(*op)), kv)
                    } else {
                        (fv, kv.push(*op))
                    }));
                }
                j = j + 1;
            }
            proof {
                assert(o0.take(opers@.len() as int) =~= o0);
                lemma_pass(f0, o0);
            }
            opers = kept;
            if found.len() == count {
                proof {
                    assert(views(found@) =~= f0);
                }
                return found;
            }
        }
    }

    /// The grounded variables are closed under the rules: every atom's variables are
    /// grounded, every operator with an output whose inputs are all grounded has its
    /// output grounded, and none is listed twice.
    pub proof fn lemma_ground_closed(&self)
        ensures
            self.ground_spec().no_duplicates(),
            forall|a: int, j: int|
                0 <= a < self.atoms@.len() && 0 <= j < self.atoms@[a].vars@.len() ==> self.ground_spec().contains(
                    #[trigger] atom_views(self.atoms@[a])[j],
                ),
            forall|k: int|
                0 <= k < self.operators@.len() && (#[trigger] self.operators@[k]).pred.spec_has_output() && fires(
                    self.ground_spec(),
                    self.operators@[k],
                ) ==> self.ground_spec().contains(output_of(self.operators@[k])),
    {
        let f = atom_vars_found(self.atoms@);
        let ops = output_ops(self.operators@);
        lemma_atom_vars_found(self.atoms@);
        lemma_saturate(f, ops);
        lemma_output_ops(self.operators@);
        let r = self.ground_spec();
        assert forall|a: int, j: int|
            0 <= a < self.atoms@.len() && 0 <= j < self.atoms@[a].vars@.len() implies r.contains(
                #[trigger] atom_views(self.atoms@[a])[j],
            ) by {
            assert(f.contains(atom_views(self.atoms@[a])[j]));
            let n = choose|n: int| 0 <= n < f.len() && f[n] == atom_views(self.atoms@[a])[j];
            assert(r[n] == f[n]);
        }
        assert forall|k: int|
            0 <= k < self.operators@.len() && (#[trigger] self.operators@[k]).pred.spec_has_output() && fires(r, self.operators@[k])
            implies r.contains(output_of(self.operators@[k])) by {
            assert(ops.contains(self.operators@[k]));
            let n = choose|n: int| 0 <= n < ops.len() && ops[n] == self.operators@[k];
            assert(fires(r, ops[n]));
        }
    }
}

/// Everything that `add_new` appends comes from `xs`.
proof fn lemma_add_new_from<K>(s: Seq<K>, xs: Seq<K>)
    ensures
        forall|i: int| s.len() <= i < add_new(s, xs).len() ==> xs.contains(#[trigger] add_new(s, xs)[i]),
    decreases xs.len(),
{
    if xs.len() > 0 {
        let init = xs.drop_last();
        lemma_add_new_from(s, init);
        lemma_add_new(s, init);
        let a = add_new(s, init);
        assert forall|i: int| s.len() <= i < add_new(s, xs).len() implies xs.contains(#[trigger] add_new(s, xs)[i]) by {
            if i < a.len() {
                assert(add_new(s, xs)[i] == a[i]);
                let j = choose|j: int| 0 <= j < init.len() && init[j] == a[i];
                assert(xs[j] == init[j]);
            } else {
                assert(xs[xs.len() - 1] == xs.last());
            }
        }
    }
}

/// The variables found from the atoms are variables of atoms.
proof fn lemma_atom_vars_from<Rel, Var: View>(atoms: Seq<Atom<Rel, Var>>)
    ensures
        forall|i: int| 0 <= i < atom_vars_found(atoms).len() ==> exists|a: int, j: int|
            0 <= a < atoms.len() && 0 <= j < atoms[a].vars@.len() && #[trigger] atom_vars_found(atoms)[i] == atom_views(atoms[a])[j],
    decreases atoms.len(),
{
    if atoms.len() > 0 {
        let init = atoms.drop_last();
        lemma_atom_vars_from(init);
        let f = atom_vars_found(init);
        lemma_add_new(f, atom_views(atoms.last()));
        lemma_add_new_from(f, atom_views(atoms.last()));
        let r = atom_vars_found(atoms);
        assert forall|i: int| 0 <= i < r.len() implies exists|a: int, j: int|
            0 <= a < atoms.len() && 0 <= j < atoms[a].vars@.len() && #[trigger] r[i] == atom_views(atoms[a])[j] by {
            if i < f.len() {
                assert(r[i] == f[i]);
                let (a, j) = choose|a: int, j: int|
                    0 <= a < init.len() && 0 <= j < init[a].vars@.len() && #[trigger] f[i] == atom_views(init[a])[j];
                assert(init[a] == atoms[a]);
            } else {
                let lv = atom_views(atoms.last());
                let j = choose|j: int| 0 <= j < lv.len() && lv[j] == r[i];
                assert(atoms[atoms.len() - 1] == atoms.last());
            }
        }
    }
}

/// Where every position of `s` is an atom's variable or the output of an operator fired
/// by the variables before it.
pub open spec fn derived<Rel, Op: Operator, Var: View>(atoms: Seq<Atom<Rel, Var>>, ops: Seq<Atom<Op, Var>>, s: Seq<Var::V>) -> bool {
    forall|i: int|
        0 <= i < s.len() ==> (exists|a: int, j: int|
            0 <= a < atoms.len() && 0 <= j < atoms[a].vars@.len() && #[trigger] s[i] == atom_views(atoms[a])[j]) || exists|k: int|
            0 <= k < ops.len() && ops[k].pred.spec_has_output() && output_of(#[trigger] ops[k]) == s[i] && fires(s.take(i), ops[k])
}

/// A pass over operators of the query keeps what is found derived.
proof fn lemma_pass_derived<Rel, Op: Operator, Var: View>(
    atoms: Seq<Atom<Rel, Var>>,
    all_ops: Seq<Atom<Op, Var>>,
    found: Seq<Var::V>,
    ops: Seq<Atom<Op, Var>>,
)
    requires
        derived(atoms, all_ops, found),
        forall|n: int| 0 <= n < ops.len() ==> all_ops.contains(#[trigger] ops[n]) && ops[n].pred.spec_has_output(),
    ensures
        derived(atoms, all_ops, ground_pass(found, ops).0),
        forall|n: int| 0 <= n < ground_pass(found, ops).1.len() ==> ops.contains(#[trigger] ground_pass(found, ops).1[n]),
    decreases ops.len(),
{
    if ops.len() > 0 {
        let init = ops.drop_last();
        assert forall|n: int| 0 <= n < init.len() implies all_ops.contains(#[trigger] init[n]) && init[n].pred.spec_has_output() by {
            assert(init[n] == ops[n]);
        }
        lemma_pass_derived(atoms, all_ops, found, init);
        let (f, k) = ground_pass(found, init);
        let op = ops.last();
        let (f2, k2) = ground_pass(found, ops);
        if fires(f, op) && !f.contains(output_of(op)) {
            assert(f2 == f.push(output_of(op)));
            assert(all_ops.contains(ops[ops.len() - 1]));
            let kk = choose|kk: int| 0 <= kk < all_ops.len() && all_ops[kk] == op;
            assert forall|i: int| 0 <= i < f2.len() implies (exists|a: int, j: int|
                0 <= a < atoms.len() && 0 <= j < atoms[a].vars@.len() && #[trigger] f2[i] == atom_views(atoms[a])[j]) || exists|k3: int|
                0 <= k3 < all_ops.len() && all_ops[k3].pred.spec_has_output() && output_of(#[trigger] all_ops[k3]) == f2[i] && fires(
                    f2.take(i),
                    all_ops[k3],
                ) by {
                assert(f2.take(i) =~= if i < f.len() { f.take(i) } else { f });
                if i < f.len() {
                    assert(f2[i] == f[i]);
                } else {
                    assert(output_of(all_ops[kk]) == f2[i]);
                }
            }
        }
        assert forall|n: int| 0 <= n < k2.len() implies ops.contains(#[trigger] k2[n]) by {
            if n < k.len() {
                assert(k2[n] == k[n]);
                assert(init.contains(k[n]));
                let m = choose|m: int| 0 <= m < init.len() && init[m] == k[n];
                assert(ops[m] == init[m]);
            } else {
                assert(ops[ops.len() - 1] == op);
            }
        }
    }
}

/// Saturation keeps what is found derived.
proof fn lemma_saturate_derived<Rel, Op: Operator, Var: View>(
    atoms: Seq<Atom<Rel, Var>>,
    all_ops: Seq<Atom<Op, Var>>,
    found: Seq<Var::V>,
    ops: Seq<Atom<Op, Var>>,
)
    requires
        derived(atoms, all_ops, found),
        forall|n: int| 0 <= n < ops.len() ==> all_ops.contains(#[trigger] ops[n]) && ops[n].pred.spec_has_output(),
    ensures
        derived(atoms, all_ops, saturate(found, ops)),
    decreases ops.len(),
{
    lemma_pass_derived(atoms, all_ops, found, ops);
    lemma_pass(found, ops);
    let (f, k) = ground_pass(found, ops);
    if !(f.len() == found.len() || k.len() >= ops.len()) {
        assert forall|n: int| 0 <= n < k.len() implies all_ops.contains(#[trigger] k[n]) && k[n].pred.spec_has_output() by {
            assert(ops.contains(k[n]));
            let m = choose|m: int| 0 <= m < ops.len() && ops[m] == k[n];
            assert(all_ops.contains(ops[m]));
        }
        lemma_saturate_derived(atoms, all_ops, f, k);
    }
}

impl<Var: Ident, Rel, Op: Operator> Query<Var, Rel, Op> {
    /// The grounded variables are derived by the rules and by nothing else: each is a
    /// variable of an atom, or the output of an operator whose inputs are all grounded
    /// before it. With closure, the grounded variables are the least set closed under the
    /// rules.
    pub proof fn lemma_ground_derived(&self)
        ensures
            derived(self.atoms@, self.operators@, self.ground_spec()),
    {
        let f = atom_vars_found(self.atoms@);
        lemma_atom_vars_from(self.atoms@);
        lemma_output_ops(self.operators@);
        let ops = output_ops(self.operators@);
        assert forall|n: int| 0 <= n < ops.len() implies self.operators@.contains(#[trigger] ops[n]) && ops[n].pred.spec_has_output() by {
            assert(ops.contains(ops[n]));
        }
        lemma_saturate_derived(self.atoms@, self.operators@, f, ops);
    }
}

} // verus!
