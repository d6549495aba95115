//! Checking that a query is well formed against a database.
use vstd::prelude::*;
use crate::ident::{Ident, views, find};
use crate::counting::{first_index, lemma_first_index};
use crate::op::{Operator, op_arity};
use crate::join::{Database, Query, atom_views};

verus! {

/// Why a query is malformed. Atoms and operators are named by their index in the query.
#[derive(Clone, Copy, Debug)]
pub enum QueryError<Var> {
    /// A variable is declared twice.
    DuplicateVar(Var),
    /// The atom has the wrong number of variables for its relation's arity.
    AtomArity(usize),
    /// The atom uses a variable that the query does not declare.
    AtomUndeclaredVar(usize, Var),
    /// The operator has the wrong number of variables for its arity.
    OperatorArity(usize),
    /// The operator has no variables.
    OperatorNoVars(usize),
    /// The operator uses a variable that the query does not declare.
    OperatorUndeclaredVar(usize, Var),
    /// A declared variable is not grounded.
    Ungrounded(Var),
}

impl<Var: View> View for QueryError<Var> {
    type V = QueryError<Var::V>;

    open spec fn view(&self) -> QueryError<Var::V> {
        match *self {
            QueryError::DuplicateVar(v) => QueryError::DuplicateVar(v@),
            QueryError::AtomArity(a) => QueryError::AtomArity(a),
            QueryError::AtomUndeclaredVar(a, v) => QueryError::AtomUndeclaredVar(a, v@),
            QueryError::OperatorArity(k) => QueryError::OperatorArity(k),
            QueryError::OperatorNoVars(k) => QueryError::OperatorNoVars(k),
            QueryError::OperatorUndeclaredVar(k, v) => QueryError::OperatorUndeclaredVar(k, v@),
            QueryError::Ungrounded(v) => QueryError::Ungrounded(v@),
        }
    }
}

/// The first position of `s` whose element occurs earlier in `s`, or -1 if none does.
pub open spec fn first_repeat<K>(s: Seq<K>) -> int
    decreases s.len(),
{
    if s.len() == 0 {
        -1
    } else if first_repeat(s.drop_last()) >= 0 {
        first_repeat(s.drop_last())
    } else if s.drop_last().contains(s.last()) {
        s.len() - 1
    } else {
        -1
    }
}

/// The first position of `xs` whose element is not in `ys`, or -1 if every one is.
pub open spec fn first_missing<K>(xs: Seq<K>, ys: Seq<K>) -> int
    decreases xs.len(),
{
    if xs.len() == 0 {
        -1
    } else if first_missing(xs.drop_last(), ys) >= 0 {
        first_missing(xs.drop_last(), ys)
    } else if !ys.contains(xs.last()) {
        xs.len() - 1
    } else {
        -1
    }
}

proof fn lemma_first_missing<K>(xs: Seq<K>, ys: Seq<K>)
    ensures
        -1 <= first_missing(xs, ys) < xs.len(),
        first_missing(xs, ys) == -1 <==> forall|j: int| 0 <= j < xs.len() ==> ys.contains(#[trigger] xs[j]),
    decreases xs.len(),
{
    if xs.len() > 0 {
        let init = xs.drop_last();
        lemma_first_missing(init, ys);
        if first_missing(xs, ys) == -1 {
            assert forall|j: int| 0 <= j < xs.len() implies ys.contains(#[trigger] xs[j]) by {
                if j < init.len() {
                    assert(init[j] == xs[j]);
                }
            }
        }
        if first_missing(init, ys) >= 0 {
            let j = choose|j: int| 0 <= j < init.len() && !ys.contains(#[trigger] init[j]);
            assert(xs[j] == init[j]);
        }
    }
}

/// The first element of `xs` missing from `ys`, comparing by view.
fn find_missing<T: Ident>(xs: &[T], ys: &[T]) -> (r: Option<usize>)
    ensures
        match r {
            Some(i) => i < xs@.len() && first_missing(views(xs@), views(ys@)) == i,
            None => first_missing(views(xs@), views(ys@)) == -1,
        },
{
    let ghost xv = views(xs@);
    let ghost yv = views(ys@);
    let mut i: usize = 0;
    while i < xs.len()
        invariant
            i <= xs@.len(),
            xv == views(xs@),
            yv == views(ys@),
            first_missing(xv.take(i as int), yv) == -1,
        decreases xs@.len() - i,
    {
        let r = find(ys, &xs[i]);
        proof {
            let t = xv.take(i as int + 1);
            assert(t.drop_last() =~= xv.take(i as int));
            assert(t.last() == xs@[i as int]@);
        }
        if let Some(n) = r {
            assert(yv[n as int] == xv[i as int]);
        }
        if r.is_none() {
            assert(xv.take(i as int + 1).len() == i + 1);
            proof {
                lemma_first_missing(xv.take(i as int + 1), yv);
                lemma_first_missing(xv, yv);
                let t = xv.take(i as int + 1);
                assert forall|j: int| 0 <= j <= i implies #[trigger] xv[j] == t[j] by {}
                assert(xv.take(i as int + 1) =~= xv.take(i as int).push(xv[i as int]));
                lemma_prefix_missing(xv, yv, i as int);
            }
            return Some(i);
        }
        i = i + 1;
    }
    assert(xv.take(xs@.len() as int) =~= xv);
    None
}

/// Where no element before `i` is missing and the one at `i` is, `i` is the first missing.
proof fn lemma_prefix_missing<K>(xs: Seq<K>, ys: Seq<K>, i: int)
    requires
        0 <= i < xs.len(),
        first_missing(xs.take(i), ys) == -1,
        !ys.contains(xs[i]),
    ensures
        first_missing(xs, ys) == i,
    decreases xs.len(),
{
    if i < xs.len() - 1 {
        let init = xs.drop_last();
        assert(init.take(i) =~= xs.take(i));
        lemma_prefix_missing(init, ys, i);
    } else {
        assert(xs.drop_last() =~= xs.take(i));
    }
}

impl<Var: Ident, Rel: Ident, Op: Operator> Query<Var, Rel, Op> {
    /// What is wrong with the atom at index `a`, if anything: its arity, then its first
    /// undeclared variable.
    pub open spec fn atom_error<Db: Database<Rel = Rel>>(&self, db: &Db, a: int) -> Option<QueryError<Var::V>> {
        let atom = self.atoms@[a];
        let m = first_missing(atom_views(atom), views(self.vars@));
        if atom.vars@.len() != db.rel_arity(atom.pred@) {
            Some(QueryError::AtomArity(a as usize))
        } else if m >= 0 {
            Some(QueryError::AtomUndeclaredVar(a as usize, atom_views(atom)[m]))
        } else {
            None
        }
    }

    /// What is wrong with the operator at index `k`, if anything: its arity, having no
    /// variables, then its first undeclared variable.
    pub open spec fn operator_error(&self, k: int) -> Option<QueryError<Var::V>> {
        let op = self.operators@[k];
        let m = first_missing(atom_views(op), views(self.vars@));
        if op.vars@.len() != op_arity(&op.pred) {
            Some(QueryError::OperatorArity(k as usize))
        } else if op.vars@.len() == 0 {
            Some(QueryError::OperatorNoVars(k as usize))
        } else if m >= 0 {
            Some(QueryError::OperatorUndeclaredVar(k as usize, atom_views(op)[m]))
        } else {
            None
        }
    }

    /// The error of the first of the first `n` atoms that has one.
    pub open spec fn first_atom_error<Db: Database<Rel = Rel>>(&self, db: &Db, n: int) -> Option<QueryError<Var::V>>
        decreases n,
    {
        if n <= 0 {
            None
        } else if self.first_atom_error(db, n - 1) is Some {
            self.first_atom_error(db, n - 1)
        } else {
            self.atom_error(db, n - 1)
        }
    }

    /// The error of the first of the first `n` operators that has one.
    pub open spec fn first_operator_error(&self, n: int) -> Option<QueryError<Var::V>>
        decreases n,
    {
        if n <= 0 {
            None
        } else if self.first_operator_error(n - 1) is Some {
            self.first_operator_error(n - 1)
        } else {
            self.operator_error(n - 1)
        }
    }

    /// The outcome of checking the query: the first problem found, checking in turn for a
    /// repeated variable, the atoms in order, the operators in order, and an ungrounded
    /// variable.
    pub open spec fn check_spec<Db: Database<Rel = Rel>>(&self, db: &Db) -> Result<(), QueryError<Var::V>> {
        let vs = views(self.vars@);
        let atom_err = self.first_atom_error(db, self.atoms@.len() as int);
        let op_err = self.first_operator_error(self.operators@.len() as int);
        let ung = first_missing(vs, self.ground_spec());
        if first_repeat(vs) >= 0 {
            Err(QueryError::DuplicateVar(vs[first_repeat(vs)]))
        } else if atom_err is Some {
            Err(atom_err->0)
        } else if op_err is Some {
            Err(op_err->0)
        } else if ung >= 0 {
            Err(QueryError::Ungrounded(vs[ung]))
        } else {
            Ok(())
        }
    }

    /// Checks a query that must be well formed (see `try_self_check`).
    pub fn self_check<Db: Database<Rel = Rel>>(&self, db: &Db)
        requires
            forall|a: int| 0 <= a < self.atoms@.len() ==> db.has_rel((#[trigger] self.atoms@[a]).pred@),
            self.check_spec(db) is Ok,
    {
        let r = self.try_self_check(db);
        assert(r is Ok);
    }

    /// Checks that the query is well formed: no variable is declared twice; every atom has
    /// its relation's arity and uses declared variables; every operator has its arity, at
    /// least one variable, and uses declared variables; and every variable is grounded.
    /// Returns the first problem found.
    pub fn try_self_check<Db: Database<Rel = Rel>>(&self, db: &Db) -> (r: Result<(), QueryError<Var>>)
        requires
            forall|a: int| 0 <= a < self.atoms@.len() ==> db.has_rel((#[trigger] self.atoms@[a]).pred@),
        ensures
            match r {
                Ok(()) => self.check_spec(db) is Ok,
                Err(e) => self.check_spec(db) == Err::<(), QueryError<Var::V>>(e@),
            },
    {
        let ghost vs = views(self.vars@);
        // Repeated variables.
        let mut i: usize = 0;
        while i < self.vars.len()
            invariant
                i <= self.vars@.len(),
                vs == views(self.vars@),
                first_repeat(vs.take(i as int)) == -1,
            decreases self.vars@.len() - i,
        {
            proof {
                assert(vs[i as int] == self.vars@[i as int]@);
                assert(vs.contains(vs[i as int]));
            }
            let j = find(self.vars.as_slice(), &self.vars[i]).unwrap();
            proof {
                lemma_first_index(vs, vs[i as int]);
                let t = vs.take(i as int + 1);
                assert(t.drop_last() =~= vs.take(i as int));
                assert(t.last() == vs[i as int]);
                if j < i {
                    assert(vs.take(i as int)[j as int] == vs[i as int]);
                } else {
                    assert forall|j2: int| 0 <= j2 < i implies vs.take(i as int)[j2] != vs[i as int] by {}
                }
            }
            if j < i {
                proof {
                    lemma_repeat_prefix(vs, i as int);
                }
                return Err(QueryError::DuplicateVar(self.vars[i]));
            }
            i = i + 1;
        }
        assert(vs.take(vs.len() as int) =~= vs);
        // Atoms.
        let mut a: usize = 0;
        while a < self.atoms.len()
            invariant
                a <= self.atoms@.len(),
                vs == views(self.vars@),
                first_repeat(vs) == -1,
                forall|a2: int| 0 <= a2 < self.atoms@.len() ==> db.has_rel((#[trigger] self.atoms@[a2]).pred@),
                self.first_atom_error(db, a as int) is None,
            decreases self.atoms@.len() - a,
        {
            let atom = &self.atoms[a];
            assert(db.has_rel(self.atoms@[a as int].pred@));
            if atom.vars.len() != db.arity(atom.pred) {
                proof {
                    lemma_first_error_prefix_atoms(self, db, a as int, self.atoms@.len() as int);
                }
                return Err(QueryError::AtomArity(a));
            }
            match find_missing(atom.vars.as_slice(), self.vars.as_slice()) {
                Some(m) => {
                    proof {
                        lemma_first_error_prefix_atoms(self, db, a as int, self.atoms@.len() as int);
                    }
                    return Err(QueryError::AtomUndeclaredVar(a, atom.vars[m]));
                },
                None => {},
            }
            a = a + 1;
        }
        // Operators.
        let mut k: usize = 0;
        while k < self.operators.len()
            invariant
                k <= self.operators@.len(),
                vs == views(self.vars@),
                first_repeat(vs) == -1,
                self.first_atom_error(db, self.atoms@.len() as int) is None,
                self.first_operator_error(k as int) is None,
            decreases self.operators@.len() - k,
        {
            let op = &self.operators[k];
            let n_in = op.pred.input_arity();
            let arity = if op.pred.has_output() { n_in + 1 } else { n_in };
            if op.vars.len() != arity {
                proof {
                    lemma_first_error_prefix_ops(self, k as int, self.operators@.len() as int);
                }
                return Err(QueryError::OperatorArity(k));
            }
            if op.vars.len() == 0 {
                proof {
                    lemma_first_error_prefix_ops(self, k as int, self.operators@.len() as int);
                }
                return Err(QueryError::OperatorNoVars(k));
            }
            match find_missing(op.vars.as_slice(), self.vars.as_slice()) {
                Some(m) => {
                    proof {
                        lemma_first_error_prefix_ops(self, k as int, self.operators@.len() as int);
                    }
                    return Err(QueryError::OperatorUndeclaredVar(k, op.vars[m]));
                },
                None => {},
            }
            k = k + 1;
        }
        // Grounding.
        proof {
            assert forall|k2: int| 0 <= k2 < self.operators@.len() implies (#[trigger] self.operators@[k2]).vars@.len()
                >= self.operators@[k2].pred.spec_input_arity() && (self.operators@[k2].pred.spec_has_output()
                ==> self.operators@[k2].vars@.len() > self.operators@[k2].pred.spec_input_arity()) by {
                lemma_no_error_ops(self, k2, self.operators@.len() as int);
            }
        }
        let grounded = self.ground_vars();
        match find_missing(self.vars.as_slice(), grounded.as_slice()) {
            Some(m) => Err(QueryError::Ungrounded(self.vars[m])),
            None => Ok(()),
        }
    }
}

/// Where no element before `i` occurs earlier and the one at `i` does, `i` is the first
/// repeat.
proof fn lemma_repeat_prefix<K>(s: Seq<K>, i: int)
    requires
        0 <= i < s.len(),
        first_repeat(s.take(i)) == -1,
        s.take(i).contains(s[i]),
    ensures
        first_repeat(s) == i,
    decreases s.len(),
{
    if i < s.len() - 1 {
        let init = s.drop_last();
        assert(init.take(i) =~= s.take(i));
        lemma_repeat_prefix(init, i);
    } else {
        assert(s.drop_last() =~= s.take(i));
    }
}

/// Once the first `a` atoms are fine and atom `a` is not, the first error among any
/// longer prefix is atom `a`'s.
proof fn lemma_first_error_prefix_atoms<Var: Ident, Rel: Ident, Op: Operator, Db: Database<Rel = Rel>>(
    q: &Query<Var, Rel, Op>,
    db: &Db,
    a: int,
    n: int,
)
    requires
        0 <= a < n,
        q.first_atom_error(db, a) is None,
        q.atom_error(db, a) is Some,
    ensures
        q.first_atom_error(db, n) == q.atom_error(db, a),
    decreases n,
{
    if n > a + 1 {
        lemma_first_error_prefix_atoms(q, db, a, n - 1);
    }
}

/// Once the first `k` operators are fine and operator `k` is not, the first error among any
/// longer prefix is operator `k`'s.
proof fn lemma_first_error_prefix_ops<Var: Ident, Rel: Ident, Op: Operator>(q: &Query<Var, Rel, Op>, k: int, n: int)
    requires
        0 <= k < n,
        q.first_operator_error(k) is None,
        q.operator_error(k) is Some,
    ensures
        q.first_operator_error(n) == q.operator_error(k),
    decreases n,
{
    if n > k + 1 {
        lemma_first_error_prefix_ops(q, k, n - 1);
    }
}

/// Where none of the first `n` operators has an error, each of them has its arity.
proof fn lemma_no_error_ops<Var: Ident, Rel: Ident, Op: Operator>(q: &Query<Var, Rel, Op>, k: int, n: int)
    requires
        0 <= k < n,
        q.first_operator_error(n) is None,
    ensures
        q.operator_error(k) is None,
    decreases n,
{
    if n > k + 1 {
        lemma_no_error_ops(q, k, n - 1);
    }
}

/// Where no position repeats an earlier element, there are no duplicates.
proof fn lemma_no_repeat<K>(s: Seq<K>)
    requires
        first_repeat(s) == -1,
    ensures
        s.no_duplicates(),
    decreases s.len(),
{
    if s.len() > 0 {
        let init = s.drop_last();
        lemma_no_repeat(init);
        assert forall|i: int, j: int| 0 <= i < j < s.len() implies s[i] != s[j] by {
            if j < s.len() - 1 {
                assert(init[i] == s[i] && init[j] == s[j]);
            } else {
                assert(init[i] == s[i]);
                assert(init.contains(s[i]));
            }
        }
    }
}

/// Where none of the first `n` atoms has an error, each of them has none.
proof fn lemma_no_error_atoms<Var: Ident, Rel: Ident, Op: Operator, Db: Database<Rel = Rel>>(
    q: &Query<Var, Rel, Op>,
    db: &Db,
    a: int,
    n: int,
)
    requires
        0 <= a < n,
        q.first_atom_error(db, n) is None,
    ensures
        q.atom_error(db, a) is None,
    decreases n,
{
    if n > a + 1 {
        lemma_no_error_atoms(q, db, a, n - 1);
    }
}

impl<Var: Ident, Rel: Ident, Op: Operator> Query<Var, Rel, Op> {
    /// What a query that passes the check is: its variables are distinct; every atom has
    /// its relation's arity and only declared variables; every operator has its arity, a
    /// variable, and only declared variables; and every variable is grounded.
    pub proof fn lemma_check_ok<Db: Database<Rel = Rel>>(&self, db: &Db)
        requires
            self.check_spec(db) is Ok,
        ensures
            views(self.vars@).no_duplicates(),
            forall|a: int|
                0 <= a < self.atoms@.len() ==> (#[trigger] self.atoms@[a]).vars@.len() == db.rel_arity(self.atoms@[a].pred@)
                    && forall|j: int| 0 <= j < self.atoms@[a].vars@.len() ==> views(self.vars@).contains(#[trigger] atom_views(self.atoms@[a])[j]),
            forall|k: int|
                0 <= k < self.operators@.len() ==> (#[trigger] self.operators@[k]).vars@.len() == op_arity(&self.operators@[k].pred)
                    && self.operators@[k].vars@.len() > 0
                    && forall|j: int| 0 <= j < self.operators@[k].vars@.len() ==> views(self.vars@).contains(#[trigger] atom_views(self.operators@[k])[j]),
            forall|j: int| 0 <= j < self.vars@.len() ==> self.ground_spec().contains(#[trigger] views(self.vars@)[j]),
    {
        let vs = views(self.vars@);
        lemma_no_repeat(vs);
        assert forall|a: int| 0 <= a < self.atoms@.len() implies (#[trigger] self.atoms@[a]).vars@.len() == db.rel_arity(self.atoms@[a].pred@)
            && forall|j: int| 0 <= j < self.atoms@[a].vars@.len() ==> vs.contains(#[trigger] atom_views(self.atoms@[a])[j]) by {
            lemma_no_error_atoms(self, db, a, self.atoms@.len() as int);
            lemma_first_missing(atom_views(self.atoms@[a]), vs);
        }
        assert forall|k: int| 0 <= k < self.operators@.len() implies (#[trigger] self.operators@[k]).vars@.len() == op_arity(&self.operators@[k].pred)
            && self.operators@[k].vars@.len() > 0
            && forall|j: int| 0 <= j < self.operators@[k].vars@.len() ==> vs.contains(#[trigger] atom_views(self.operators@[k])[j]) by {
            lemma_no_error_ops(self, k, self.operators@.len() as int);
            lemma_first_missing(atom_views(self.operators@[k]), vs);
        }
        lemma_first_missing(vs, self.ground_spec());
    }
}

/// Without duplicates, no position repeats an earlier element.
proof fn lemma_no_dup_no_repeat<K>(s: Seq<K>)
    requires
        s.no_duplicates(),
    ensures
        first_repeat(s) == -1,
    decreases s.len(),
{
    if s.len() > 0 {
        let init = s.drop_last();
        assert(init.no_duplicates()) by {
            assert forall|i: int, j: int| 0 <= i < j < init.len() implies init[i] != init[j] by {
                assert(init[i] == s[i] && init[j] == s[j]);
            }
        }
        lemma_no_dup_no_repeat(init);
        if init.contains(s.last()) {
            let j = choose|j: int| 0 <= j < init.len() && init[j] == s.last();
            assert(s[j] == s[s.len() - 1]);
        }
    }
}

/// Where each of the first `n` atoms is fine, none of them has an error.
proof fn lemma_atoms_fine<Var: Ident, Rel: Ident, Op: Operator, Db: Database<Rel = Rel>>(
    q: &Query<Var, Rel, Op>,
    db: &Db,
    n: int,
)
    requires
        0 <= n <= q.atoms@.len(),
        forall|a: int| 0 <= a < n ==> #[trigger] q.atom_error(db, a) is None,
    ensures
        q.first_atom_error(db, n) is None,
    decreases n,
{
    if n > 0 {
        lemma_atoms_fine(q, db, n - 1);
    }
}

/// Where each of the first `n` operators is fine, none of them has an error.
proof fn lemma_ops_fine<Var: Ident, Rel: Ident, Op: Operator>(q: &Query<Var, Rel, Op>, n: int)
    requires
        0 <= n <= q.operators@.len(),
        forall|k: int| 0 <= k < n ==> #[trigger] q.operator_error(k) is None,
    ensures
        q.first_operator_error(n) is None,
    decreases n,
{
    if n > 0 {
        lemma_ops_fine(q, n - 1);
    }
}

impl<Var: Ident, Rel: Ident, Op: Operator> Query<Var, Rel, Op> {
    /// The check accepts exactly the well-formed queries: the variables are distinct; every
    /// atom has its relation's arity and uses declared variables only (a variable may occur
    /// in an atom more than once); every operator has its arity, at least one variable and
    /// declared variables only; and every variable is grounded.
    pub proof fn lemma_check_ok_iff<Db: Database<Rel = Rel>>(&self, db: &Db)
        ensures
            self.check_spec(db) is Ok <==> {
                &&& views(self.vars@).no_duplicates()
                &&& forall|a: int|
                    0 <= a < self.atoms@.len() ==> (#[trigger] self.atoms@[a]).vars@.len() == db.rel_arity(self.atoms@[a].pred@)
                        && forall|j: int| 0 <= j < self.atoms@[a].vars@.len() ==> views(self.vars@).contains(#[trigger] atom_views(self.atoms@[a])[j])
                &&& forall|k: int|
                    0 <= k < self.operators@.len() ==> (#[trigger] self.operators@[k]).vars@.len() == op_arity(&self.operators@[k].pred)
                        && self.operators@[k].vars@.len() > 0
                        && forall|j: int| 0 <= j < self.operators@[k].vars@.len() ==> views(self.vars@).contains(#[trigger] atom_views(self.operators@[k])[j])
                &&& forall|j: int| 0 <= j < self.vars@.len() ==> self.ground_spec().contains(#[trigger] views(self.vars@)[j])
            },
    {
        let vs = views(self.vars@);
        if self.check_spec(db) is Ok {
            self.lemma_check_ok(db);
        }
        if vs.no_duplicates()
            && (forall|a: int|
                0 <= a < self.atoms@.len() ==> (#[trigger] self.atoms@[a]).vars@.len() == db.rel_arity(self.atoms@[a].pred@)
                    && forall|j: int| 0 <= j < self.atoms@[a].vars@.len() ==> vs.contains(#[trigger] atom_views(self.atoms@[a])[j]))
            && (forall|k: int|
                0 <= k < self.operators@.len() ==> (#[trigger] self.operators@[k]).vars@.len() == op_arity(&self.operators@[k].pred)
                    && self.operators@[k].vars@.len() > 0
                    && forall|j: int| 0 <= j < self.operators@[k].vars@.len() ==> vs.contains(#[trigger] atom_views(self.operators@[k])[j]))
            && (forall|j: int| 0 <= j < self.vars@.len() ==> self.ground_spec().contains(#[trigger] vs[j])) {
            lemma_no_dup_no_repeat(vs);
            assert forall|a: int| 0 <= a < self.atoms@.len() implies #[trigger] self.atom_error(db, a) is None by {
                lemma_first_missing(atom_views(self.atoms@[a]), vs);
            }
            lemma_atoms_fine(self, db, self.atoms@.len() as int);
            assert forall|k: int| 0 <= k < self.operators@.len() implies #[trigger] self.operator_error(k) is None by {
                lemma_first_missing(atom_views(self.operators@[k]), vs);
            }
            lemma_ops_fine(self, self.operators@.len() as int);
            lemma_first_missing(vs, self.ground_spec());
        }
    }
}

} // verus!
