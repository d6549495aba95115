//! A small in-memory database backed by vectors, keyed by relation name.
use vstd::prelude::*;
use crate::value::Value;
use crate::ident::Ident;
use crate::counting::{first_index, lemma_first_index, lemma_first_index_at};
use crate::join::Database;

verus! {

/// A relation's rows, flattened: row `k` is `data[k * arity .. (k + 1) * arity]`. The count
/// is kept because a relation of arity zero cannot recover it from `data`.
struct Rel {
    arity: usize,
    count: usize,
    data: Vec<Value>,
}

/// The rows of a relation.
spec fn rows_of_rel(r: Rel) -> Seq<Seq<Value>> {
    Seq::new(r.count as nat, |k: int| Seq::new(r.arity as nat, |j: int| r.data@[k * r.arity + j]))
}

/// A database of named relations, each with an arity and a sequence of rows.
pub struct VecDb {
    rels: Vec<(&'static str, Rel)>,
}

impl VecDb {
    /// Every relation's data holds exactly its rows.
    #[verifier::type_invariant]
    spec fn inv(self) -> bool {
        forall|i: int| 0 <= i < self.rels@.len() ==> (#[trigger] self.rels@[i]).1.data@.len() == self.rels@[i].1.count * self.rels@[i].1.arity
    }

    spec fn names(&self) -> Seq<Seq<char>> {
        self.rels@.map_values(|e: (&'static str, Rel)| e.0@)
    }
}

/// The relations' names.
spec fn names_of(rels: Seq<(&'static str, Rel)>) -> Seq<Seq<char>> {
    rels.map_values(|e: (&'static str, Rel)| e.0@)
}

/// The position of the relation named `name`, if there is one.
fn find_name(rels: &Vec<(&'static str, Rel)>, name: &'static str) -> (r: Option<usize>)
    ensures
        match r {
            Some(i) => i < rels@.len() && first_index(names_of(rels@), name@) == i,
            None => !names_of(rels@).contains(name@),
        },
{
    let ghost ns = names_of(rels@);
    let mut i: usize = 0;
    while i < rels.len()
        invariant
            i <= rels@.len(),
            ns == names_of(rels@),
            forall|j: int| 0 <= j < i ==> ns[j] != name@,
        decreases rels@.len() - i,
    {
        if rels[i].0.same(&name) {
            proof {
                lemma_first_index_at(ns, name@, i as int);
            }
            return Some(i);
        }
        i = i + 1;
    }
    proof {
        if ns.contains(name@) {
            let j = choose|j: int| 0 <= j < ns.len() && ns[j] == name@;
            assert(ns[j] != name@);
        }
    }
    None
}

impl View for VecDb {
    type V = Map<Seq<char>, (nat, Seq<Seq<Value>>)>;

    /// Each name maps to its relation's arity and rows.
    closed spec fn view(&self) -> Map<Seq<char>, (nat, Seq<Seq<Value>>)> {
        Map::new(
            |n: Seq<char>| names_of(self.rels@).contains(n),
            |n: Seq<char>|
                {
                    let r = self.rels@[first_index(names_of(self.rels@), n)].1;
                    (r.arity as nat, rows_of_rel(r))
                },
        )
    }
}

impl VecDb {
    /// An empty database.
    pub fn new() -> (db: VecDb)
        ensures
            db@ == Map::<Seq<char>, (nat, Seq<Seq<Value>>)>::empty(),
    {
        let db = VecDb { rels: Vec::new() };
        assert(db@ =~= Map::<Seq<char>, (nat, Seq<Seq<Value>>)>::empty());
        db
    }

    /// Adds (or replaces) the relation `name` with the given arity and rows. Every row must
    /// have the relation's arity.
    pub fn rel(self, name: &'static str, arity: usize, rows: Vec<Vec<Value>>) -> (db: VecDb)
        requires
            forall|k: int| 0 <= k < rows@.len() ==> (#[trigger] rows@[k])@.len() == arity,
        ensures
            db@ == self@.insert(name@, (arity as nat, rows@.map_values(|r: Vec<Value>| r@))),
    {
        proof {
            use_type_invariant(&self);
        }
        let ghost old_view = self@;
        let count = rows.len();
        let mut data: Vec<Value> = Vec::new();
        let mut k: usize = 0;
        while k < count
            invariant
                k <= count,
                count == rows@.len(),
                forall|k2: int| 0 <= k2 < rows@.len() ==> (#[trigger] rows@[k2])@.len() == arity,
                data@.len() == k * arity,
                forall|k2: int, j: int| 0 <= k2 < k && 0 <= j < arity ==> data@[k2 * arity + j] == #[trigger] rows@[k2]@[j],
            decreases count - k,
        {
            let row = &rows[k];
            assert(row@.len() == arity);
            let ghost d0 = data@;
            let mut j: usize = 0;
            while j < arity
                invariant
                    j <= arity,
                    row@.len() == arity,
                    data@.len() == k * arity + j,
                    data@.take(k * arity) == d0.take(k * arity),
                    d0.len() == k * arity,
                    forall|j2: int| 0 <= j2 < j ==> data@[k * arity + j2] == row@[j2],
                decreases arity - j,
            {
                data.push(row[j]);
                j = j + 1;
                assert(data@.take(k * arity) =~= d0.take(k * arity));
            }
            proof {
                assert(d0.take(k * arity) =~= d0);
                assert forall|k2: int, j2: int| 0 <= k2 < k + 1 && 0 <= j2 < arity implies data@[k2 * arity + j2] == #[trigger] rows@[k2]@[j2] by {
                    if k2 < k {
                        assert(k2 * arity + j2 < k * arity) by (nonlinear_arith)
                            requires 0 <= k2 < k, 0 <= j2 < arity;
                        assert(data@[k2 * arity + j2] == data@.take(k * arity)[k2 * arity + j2]);
                    } else {
                        assert(k2 * arity == k * arity);
                    }
                }
                assert((k + 1) * arity == k * arity + arity) by (nonlinear_arith);
            }
            k = k + 1;
        }
        let new_rel = Rel { arity, count, data };
        proof {
            assert(rows_of_rel(new_rel) =~= rows@.map_values(|r: Vec<Value>| r@)) by {
                assert forall|k2: int| 0 <= k2 < count implies #[trigger] rows_of_rel(new_rel)[k2] =~= rows@[k2]@ by {
                    assert forall|j2: int| 0 <= j2 < arity implies rows_of_rel(new_rel)[k2][j2] == rows@[k2]@[j2] by {
                        assert(data@[k2 * arity + j2] == rows@[k2]@[j2]);
                    }
                }
            }
        }
        let VecDb { rels } = self;
        let mut rels = rels;
        let ghost rels0 = rels@;
        let ghost ns = names_of(rels@);
        proof {
            lemma_first_index(ns, name@);
        }
        match find_name(&rels, name) {
            Some(i) => {
                rels.set(i, (name, new_rel));
                assert(names_of(rels@) =~= ns);
            },
            None => {
                rels.push((name, new_rel));
                assert(names_of(rels@) =~= ns.push(name@));
            },
        }
        let db = VecDb { rels };
        proof {
            let ns2 = names_of(db.rels@);
            assert forall|n: Seq<char>| ns.contains(n) && n != name@ implies first_index(ns2, n) == first_index(ns, n)
                && db.rels@[first_index(ns, n)] == rels0[first_index(ns, n)] by {
                lemma_first_index(ns, n);
                lemma_first_index(ns2, n);
                let i = first_index(ns, n);
                assert(ns2[i] == n);
                lemma_first_index_at(ns2, n, i);
            }
            lemma_first_index(ns2, name@);
            let fi = first_index(ns2, name@);
            assert(db.rels@[fi] == (name, new_rel));
            let target = old_view.insert(name@, (arity as nat, rows@.map_values(|r: Vec<Value>| r@)));
            assert forall|n: Seq<char>| db@.contains_key(n) <==> target.contains_key(n) by {
                if ns.contains(n) {
                    let j = choose|j: int| 0 <= j < ns.len() && ns[j] == n;
                    assert(ns2[j] == n);
                }
                if ns2.contains(n) && n != name@ {
                    let j = choose|j: int| 0 <= j < ns2.len() && ns2[j] == n;
                    assert(ns[j] == n);
                }
            }
            assert forall|n: Seq<char>| db@.contains_key(n) implies db@[n] == target[n] by {
                if n != name@ {
                    assert(ns.contains(n)) by {
                        let j = choose|j: int| 0 <= j < ns2.len() && ns2[j] == n;
                        assert(ns[j] == n);
                    }
                }
            }
            assert(db@ =~= target);
        }
        db
    }
}

impl Default for VecDb {
    /// An empty database.
    fn default() -> (db: VecDb)
        ensures
            db@ == Map::<Seq<char>, (nat, Seq<Seq<Value>>)>::empty(),
    {
        VecDb::new()
    }
}

impl Database for VecDb {
    type Rel = &'static str;

    open spec fn has_rel(&self, r: Seq<char>) -> bool {
        self@.contains_key(r)
    }

    open spec fn rel_arity(&self, r: Seq<char>) -> nat {
        self@[r].0
    }

    open spec fn rel_rows(&self, r: Seq<char>) -> Seq<Seq<Value>> {
        self@[r].1
    }

    proof fn lemma_rows_have_arity(&self, r: Seq<char>) {
    }

    fn has(&self, r: &'static str) -> (b: bool) {
        proof {
            lemma_first_index(names_of(self.rels@), r@);
        }
        find_name(&self.rels, r).is_some()
    }

    fn arity(&self, r: &'static str) -> (n: usize) {
        let i = find_name(&self.rels, r).unwrap();
        self.rels[i].1.arity
    }

    fn count(&self, r: &'static str) -> (n: usize) {
        let i = find_name(&self.rels, r).unwrap();
        self.rels[i].1.count
    }

    fn row(&self, r: &'static str, k: usize) -> (row: &[Value]) {
        proof {
            use_type_invariant(self);
        }
        let i = find_name(&self.rels, r).unwrap();
        let rel = &self.rels[i].1;
        assert(self@[r@] == (rel.arity as nat, rows_of_rel(*rel)));
        let dl = rel.data.len();
        assert(rel.data@.len() == rel.count * rel.arity);
        assert((k + 1) * rel.arity <= rel.count * rel.arity) by (nonlinear_arith)
            requires k < rel.count;
        assert(k * rel.arity + rel.arity == (k + 1) * rel.arity) by (nonlinear_arith);
        let start = k * rel.arity;
        let end = start + rel.arity;
        let row = vstd::slice::slice_subrange(rel.data.as_slice(), start, end);
        assert(row@ =~= rows_of_rel(*rel)[k as int]);
        row
    }
}

} // verus!
