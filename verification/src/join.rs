//! Databases, queries, trie indexes, query plans and depth-first query execution.
use vstd::prelude::*;
use vstd::set_lib::*;
use crate::counting::{first_index, lemma_first_index, lemma_first_index_at, lemma_first_index_distinct, count_below, lemma_count_mono, lemma_count_ext, lemma_count_le, lemma_count_bijection};
use std::collections::HashMap;
use vstd::std_specs::hash::spec_hash_map_iter;
use vstd::std_specs::iter::IteratorSpec;
use std::rc::Rc;

use crate::ident::{Ident, views, find};
use crate::op::Operator;
use crate::value::{Value, ValueType, Untag};
use crate::sorting::{rows_of, rows_strictly_sorted, sort_rows, lemma_same_multiset, lemma_rows_strict};

verus! {

broadcast use vstd::std_specs::hash::group_hash_axioms;

// ---------- DATABASES AND QUERIES ----------

/// A database has relations, each a finite sequence of rows of one arity.
pub trait Database {
    /// Relation identifiers.
    type Rel: Ident;

    spec fn has_rel(&self, r: <Self::Rel as View>::V) -> bool;

    spec fn rel_arity(&self, r: <Self::Rel as View>::V) -> nat;

    spec fn rel_rows(&self, r: <Self::Rel as View>::V) -> Seq<Seq<Value>>;

    /// Every row of a relation has the relation's arity.
    proof fn lemma_rows_have_arity(&self, r: <Self::Rel as View>::V)
        requires
            self.has_rel(r),
        ensures
            forall|k: int|
                0 <= k < self.rel_rows(r).len() ==> #[trigger] self.rel_rows(r)[k].len()
                    == self.rel_arity(r),
    ;

    /// Whether the database has the relation.
    fn has(&self, r: Self::Rel) -> (b: bool)
        ensures
            b == self.has_rel(r@),
    ;

    fn arity(&self, r: Self::Rel) -> (n: usize)
        requires
            self.has_rel(r@),
        ensures
            n == self.rel_arity(r@),
    ;

    fn count(&self, r: Self::Rel) -> (n: usize)
        requires
            self.has_rel(r@),
        ensures
            n == self.rel_rows(r@).len(),
    ;

    fn row(&self, r: Self::Rel, k: usize) -> (row: &[Value])
        requires
            self.has_rel(r@),
            k < self.rel_rows(r@).len(),
        ensures
            row@ == self.rel_rows(r@)[k as int],
    ;
}

// ---------- TRIE INDEXES ----------

/// A trie index: a `Leaf` holds the empty tuple; a `Node` maps each first value to the
/// trie of the remaining values.
pub enum Trie {
    Leaf,
    Node(TrieMap),
}

pub type TrieMap = HashMap<Value, Trie>;

/// `t` is a trie all of whose tuples have length `d`.
pub open spec fn trie_wf(t: Trie, d: nat) -> bool
    decreases d,
{
    if d == 0 {
        t is Leaf
    } else {
        match t {
            Trie::Leaf => false,
            Trie::Node(m) => forall|k: Value| #[trigger]
                m@.contains_key(k) ==> trie_wf(m@[k], (d - 1) as nat),
        }
    }
}

/// No inner node of `t` above depth `d` is empty: every node reached holds a key.
pub open spec fn no_empty_node(t: Trie, d: nat) -> bool
    decreases d,
{
    if d == 0 {
        true
    } else {
        match t {
            Trie::Leaf => true,
            Trie::Node(m) => (exists|k: Value| m@.contains_key(k)) && forall|k: Value| #[trigger]
                m@.contains_key(k) ==> no_empty_node(m@[k], (d - 1) as nat),
        }
    }
}

proof fn lemma_full_node(m: TrieMap, d: nat)
    requires
        d > 0,
    ensures
        no_empty_node(Trie::Node(m), d) == ((exists|k: Value| m@.contains_key(k)) && forall|k: Value| #[trigger]
            m@.contains_key(k) ==> no_empty_node(m@[k], (d - 1) as nat)),
{
    let t = Trie::Node(m);
    assert(t->Node_0 == m);
}

/// The tuple `path` is in the trie `t`.
pub open spec fn trie_has(t: Trie, path: Seq<Value>) -> bool
    decreases path.len(),
{
    if path.len() == 0 {
        t is Leaf
    } else {
        match t {
            Trie::Leaf => false,
            Trie::Node(m) => m@.contains_key(path[0]) && trie_has(m@[path[0]], path.drop_first()),
        }
    }
}

/// What an index does with each column of a relation.
#[derive(Debug, Clone, Copy, PartialEq, Eq, PartialOrd, Ord, Hash, Structural)]
pub enum IndexColumnShape {
    /// The column becomes the given trie level.
    TrieLevel(usize),
    /// Rows whose column differs from the constant are discarded.
    EqConst(Value),
    /// Rows whose column differs from the given (earlier) column are discarded.
    EqColumn(usize),
}

/// One entry per column of the indexed relation.
pub type IndexShape = Vec<IndexColumnShape>;

/// The number of trie levels of an index shape.
pub open spec fn n_levels(shape: Seq<IndexColumnShape>) -> nat
    decreases shape.len(),
{
    if shape.len() == 0 {
        0
    } else {
        n_levels(shape.drop_last()) + if shape.last() is TrieLevel { 1nat } else { 0nat }
    }
}

/// The trie levels of a shape are `0..n_levels`, each used by exactly one column, and
/// every `EqColumn` refers back to an earlier `TrieLevel` column.
pub open spec fn shape_valid(shape: Seq<IndexColumnShape>) -> bool {
    &&& forall|c: int|
        0 <= c < shape.len() && (#[trigger] shape[c]) is TrieLevel ==> shape[c]->TrieLevel_0
            < n_levels(shape)
    &&& forall|c1: int, c2: int|
        0 <= c1 < shape.len() && 0 <= c2 < shape.len() && c1 != c2 && (#[trigger] shape[c1])
            is TrieLevel && (#[trigger] shape[c2]) is TrieLevel ==> shape[c1]->TrieLevel_0
            != shape[c2]->TrieLevel_0
    &&& forall|c: int|
        0 <= c < shape.len() && (#[trigger] shape[c]) is EqColumn ==> {
            let j = shape[c]->EqColumn_0;
            j < c && shape[j as int] is TrieLevel
        }
}

/// The row passes the shape's filters.
pub open spec fn row_passes(row: Seq<Value>, shape: Seq<IndexColumnShape>) -> bool {
    forall|c: int|
        0 <= c < shape.len() ==> match #[trigger] shape[c] {
            IndexColumnShape::TrieLevel(_) => true,
            IndexColumnShape::EqConst(v) => row[c] == v,
            IndexColumnShape::EqColumn(j) => row[c] == row[j as int],
        }
}

/// `path` is the row's tuple of trie levels: level `l` holds the column that becomes `l`.
pub open spec fn row_path(row: Seq<Value>, shape: Seq<IndexColumnShape>, path: Seq<Value>) -> bool {
    &&& path.len() == n_levels(shape)
    &&& forall|c: int|
        0 <= c < shape.len() && (#[trigger] shape[c]) is TrieLevel ==> path[shape[c]->TrieLevel_0 as int]
            == row[c]
}

/// `t` indexes `rows` by `shape`: it is `None` when no row passes the filters, and
/// otherwise a trie of depth `n_levels(shape)` holding exactly the paths of passing rows.
pub open spec fn indexes_rows(
    t: Option<Trie>,
    rows: Seq<Seq<Value>>,
    shape: Seq<IndexColumnShape>,
) -> bool {
    match t {
        None => forall|k: int| 0 <= k < rows.len() ==> !row_passes(#[trigger] rows[k], shape),
        Some(t) => {
            &&& trie_wf(t, n_levels(shape))
            &&& no_empty_node(t, n_levels(shape))
            &&& exists|k: int| 0 <= k < rows.len() && row_passes(#[trigger] rows[k], shape)
            &&& forall|path: Seq<Value>|
                #[trigger] trie_has(t, path) <==> exists|k: int|
                    0 <= k < rows.len() && row_passes(#[trigger] rows[k], shape) && row_path(
                        rows[k],
                        shape,
                        path,
                    )
        },
    }
}

/// The set of trie levels used by the shape's columns.
spec fn used_levels(shape: Seq<IndexColumnShape>) -> Set<int>
    decreases shape.len(),
{
    if shape.len() == 0 {
        Set::empty()
    } else {
        let s = used_levels(shape.drop_last());
        match shape.last() {
            IndexColumnShape::TrieLevel(k) => s.insert(k as int),
            _ => s,
        }
    }
}

proof fn lemma_used_levels(shape: Seq<IndexColumnShape>)
    requires
        forall|c1: int, c2: int|
            0 <= c1 < shape.len() && 0 <= c2 < shape.len() && c1 != c2 && (#[trigger] shape[c1])
                is TrieLevel && (#[trigger] shape[c2]) is TrieLevel ==> shape[c1]->TrieLevel_0
                != shape[c2]->TrieLevel_0,
    ensures
        used_levels(shape).finite(),
        used_levels(shape).len() == n_levels(shape),
        forall|k: int|
            #[trigger] used_levels(shape).contains(k) <==> exists|c: int|
                0 <= c < shape.len() && shape[c] is TrieLevel && shape[c]->TrieLevel_0 == k,
    decreases shape.len(),
{
    if shape.len() > 0 {
        let init = shape.drop_last();
        assert forall|c1: int, c2: int|
            0 <= c1 < init.len() && 0 <= c2 < init.len() && c1 != c2 && (#[trigger] init[c1])
                is TrieLevel && (#[trigger] init[c2]) is TrieLevel implies init[c1]->TrieLevel_0
                != init[c2]->TrieLevel_0 by {
            assert(init[c1] == shape[c1] && init[c2] == shape[c2]);
        }
        lemma_used_levels(init);
        let last = shape.len() - 1;
        assert forall|k: int|
            #[trigger] used_levels(shape).contains(k) <==> exists|c: int|
                0 <= c < shape.len() && shape[c] is TrieLevel && shape[c]->TrieLevel_0 == k by {
            if used_levels(shape).contains(k) {
                if used_levels(init).contains(k) {
                    let c = choose|c: int|
                        0 <= c < init.len() && init[c] is TrieLevel && init[c]->TrieLevel_0 == k;
                    assert(shape[c] == init[c]);
                } else {
                    assert(shape[last] is TrieLevel && shape[last]->TrieLevel_0 == k);
                }
            }
            if exists|c: int|
                0 <= c < shape.len() && shape[c] is TrieLevel && shape[c]->TrieLevel_0 == k {
                let c = choose|c: int|
                    0 <= c < shape.len() && shape[c] is TrieLevel && shape[c]->TrieLevel_0 == k;
                if c < last {
                    assert(init[c] == shape[c]);
                }
            }
        }
        if let IndexColumnShape::TrieLevel(k) = shape.last() {
            if used_levels(init).contains(k as int) {
                let c = choose|c: int|
                    0 <= c < init.len() && init[c] is TrieLevel && init[c]->TrieLevel_0 == k;
                assert(shape[c] == init[c]);
                assert(shape[c] is TrieLevel && shape[last] is TrieLevel);
            }
        }
    }
}

/// In a valid shape, every trie level is used by some column.
proof fn lemma_levels_onto(shape: Seq<IndexColumnShape>, l: int)
    requires
        shape_valid(shape),
        0 <= l < n_levels(shape),
    ensures
        exists|c: int| 0 <= c < shape.len() && shape[c] is TrieLevel && shape[c]->TrieLevel_0 == l,
{
    lemma_used_levels(shape);
    let s = used_levels(shape);
    let r = set_int_range(0, n_levels(shape) as int);
    lemma_int_range(0, n_levels(shape) as int);
    assert forall|k: int| s.contains(k) implies r.contains(k) by {
        let c = choose|c: int|
            0 <= c < shape.len() && shape[c] is TrieLevel && shape[c]->TrieLevel_0 == k;
    }
    lemma_subset_equality(s, r);
    assert(r.contains(l));
}

proof fn lemma_wf_node(m: TrieMap, d: nat)
    requires
        d > 0,
    ensures
        trie_wf(Trie::Node(m), d) == (forall|k: Value| #[trigger]
            m@.contains_key(k) ==> trie_wf(m@[k], (d - 1) as nat)),
{
    let t = Trie::Node(m);
    assert(t->Node_0 == m);
}

pub(crate) proof fn lemma_wf_pos(t: Trie, d: nat)
    requires
        d > 0,
        trie_wf(t, d),
    ensures
        t is Node,
{
    match t {
        Trie::Leaf => {},
        Trie::Node(m) => {},
    }
}

proof fn lemma_has_node(m: TrieMap, p: Seq<Value>)
    requires
        p.len() > 0,
    ensures
        trie_has(Trie::Node(m), p) == (m@.contains_key(p[0]) && trie_has(m@[p[0]], p.drop_first())),
{
    let t = Trie::Node(m);
    assert(t->Node_0 == m);
}

/// Under a valid shape, a row has at most one path.
proof fn lemma_row_path_unique(
    row: Seq<Value>,
    shape: Seq<IndexColumnShape>,
    p: Seq<Value>,
    q: Seq<Value>,
)
    requires
        shape_valid(shape),
        row_path(row, shape, p),
        row_path(row, shape, q),
    ensures
        p == q,
{
    assert forall|l: int| 0 <= l < p.len() implies p[l] == q[l] by {
        lemma_levels_onto(shape, l);
        let c = choose|c: int|
            0 <= c < shape.len() && shape[c] is TrieLevel && shape[c]->TrieLevel_0 == l;
    }
    assert(p =~= q);
}

/// Adds the tuple `path[i..]` to the trie node `map`, whose tuples have that length.
fn insert_path(map: &mut TrieMap, path: &Vec<Value>, i: usize)
    requires
        i < path@.len(),
        trie_wf(Trie::Node(*old(map)), (path@.len() - i) as nat),
        forall|k: Value| #[trigger] old(map)@.contains_key(k) ==> no_empty_node(old(map)@[k], (path@.len() - i - 1) as nat),
    ensures
        trie_wf(Trie::Node(*final(map)), (path@.len() - i) as nat),
        no_empty_node(Trie::Node(*final(map)), (path@.len() - i) as nat),
        forall|p: Seq<Value>|
            #[trigger] trie_has(Trie::Node(*final(map)), p) <==> (trie_has(Trie::Node(*old(map)), p)
                || p == path@.skip(i as int)),
    decreases path@.len() - i,
{
    let ghost old_map = *map;
    let k = path[i];
    assert(path@.skip(i as int)[0] == k);
    assert(path@.skip(i as int).drop_first() =~= path@.skip(i + 1));
    if i == path.len() - 1 {
        map.insert(k, Trie::Leaf);
        proof {
            lemma_wf_node(old_map, 1);
            lemma_wf_node(*map, 1);
            lemma_full_node(*map, 1);
            assert(map@.contains_key(k));
        }
        assert forall|p: Seq<Value>|
            #[trigger] trie_has(Trie::Node(*map), p) <==> (trie_has(Trie::Node(old_map), p) || p
                == path@.skip(i as int)) by {
            if p.len() > 0 {
                lemma_has_node(*map, p);
                lemma_has_node(old_map, p);
                if p[0] == k {
                    if old_map@.contains_key(k) {
                        assert(trie_wf(old_map@[k], 0));
                    }
                    if p.drop_first().len() == 0 {
                        assert(p =~= path@.skip(i as int));
                    }
                }
            }
        }
    } else {
        let removed = map.remove(&k);
        proof {
            lemma_wf_node(old_map, (path@.len() - i) as nat);
            if old_map@.contains_key(k) {
                lemma_wf_pos(old_map@[k], (path@.len() - (i + 1)) as nat);
            }
        }
        let mut sub: TrieMap = match removed {
            Some(Trie::Node(m)) => m,
            _ => HashMap::new(),
        };
        let ghost old_sub = sub;
        assert(old_map@.contains_key(k) ==> old_map@[k] == Trie::Node(old_sub));
        proof {
            if old_map@.contains_key(k) {
                assert(no_empty_node(old_map@[k], (path@.len() - i - 1) as nat));
                lemma_full_node(old_sub, (path@.len() - i - 1) as nat);
            }
        }
        proof {
            lemma_wf_node(sub, (path@.len() - (i + 1)) as nat);
        }
        assert(trie_wf(Trie::Node(sub), (path@.len() - (i + 1)) as nat));
        insert_path(&mut sub, path, i + 1);
        map.insert(k, Trie::Node(sub));
        proof {
            lemma_full_node(*map, (path@.len() - i) as nat);
            assert(map@.contains_key(k));
            assert forall|k2: Value| #[trigger] map@.contains_key(k2) implies no_empty_node(map@[k2], (path@.len() - i - 1) as nat) by {
                if k2 != k {
                    assert(old_map@.contains_key(k2));
                }
            }
        }
        assert forall|p: Seq<Value>|
            #[trigger] trie_has(Trie::Node(*map), p) <==> (trie_has(Trie::Node(old_map), p) || p
                == path@.skip(i as int)) by {
            if p.len() > 0 {
                if p[0] == k {
                    assert(trie_has(Trie::Node(sub), p.drop_first()) <==> (trie_has(
                        Trie::Node(old_sub),
                        p.drop_first(),
                    ) || p.drop_first() == path@.skip(i + 1)));
                    if p.drop_first() == path@.skip(i + 1) {
                        assert forall|j: int| 0 <= j < p.len() implies p[j] == path@.skip(i as int)[j] by {
                            if j > 0 {
                                assert(p[j] == p.drop_first()[j - 1]);
                            }
                        }
                        assert(p =~= path@.skip(i as int));
                    }
                    if !old_map@.contains_key(k) {
                        assert(old_sub@ == Map::<Value, Trie>::empty());
                        assert(!trie_has(Trie::Node(old_sub), p.drop_first()));
                    }
                }
            }
        }
    }
}

/// Checks the rows of `filters`, which lists the non-level columns of `shape`.
fn filters_accept(row: &[Value], filters: &Vec<(usize, IndexColumnShape)>, Ghost(shape): Ghost<
    Seq<IndexColumnShape>,
>) -> (b: bool)
    requires
        row@.len() == shape.len(),
        shape_valid(shape),
        forall|f: int|
            0 <= f < filters@.len() ==> (#[trigger] filters@[f]).0 < shape.len() && shape[filters@[f].0 as int]
                == filters@[f].1 && !(filters@[f].1 is TrieLevel),
        forall|c: int|
            0 <= c < shape.len() && !(#[trigger] shape[c] is TrieLevel) ==> exists|f: int|
                0 <= f < filters@.len() && filters@[f].0 == c,
    ensures
        b == row_passes(row@, shape),
{
    let mut i: usize = 0;
    while i < filters.len()
        invariant
            i <= filters@.len(),
            row@.len() == shape.len(),
            shape_valid(shape),
            forall|f: int|
                0 <= f < filters@.len() ==> (#[trigger] filters@[f]).0 < shape.len() && shape[filters@[f].0 as int]
                    == filters@[f].1 && !(filters@[f].1 is TrieLevel),
            forall|f: int|
                0 <= f < i ==> match (#[trigger] filters@[f]).1 {
                    IndexColumnShape::TrieLevel(_) => true,
                    IndexColumnShape::EqConst(v) => row@[filters@[f].0 as int] == v,
                    IndexColumnShape::EqColumn(j) => row@[filters@[f].0 as int] == row@[j as int],
                },
        decreases filters@.len() - i,
    {
        let (col, colshape) = filters[i];
        let ok = match colshape {
            IndexColumnShape::EqConst(v) => row[col] == v,
            IndexColumnShape::EqColumn(j) => row[col] == row[j],
            IndexColumnShape::TrieLevel(_) => true,
        };
        if !ok {
            assert(!row_passes(row@, shape)) by {
                let c = col as int;
                assert(shape[c] == colshape);
            }
            return false;
        }
        i = i + 1;
    }
    assert forall|c: int|
        0 <= c < shape.len() implies match #[trigger] shape[c] {
            IndexColumnShape::TrieLevel(_) => true,
            IndexColumnShape::EqConst(v) => row@[c] == v,
            IndexColumnShape::EqColumn(j) => row@[c] == row@[j as int],
        } by {
        if !(shape[c] is TrieLevel) {
            let f = choose|f: int| 0 <= f < filters@.len() && filters@[f].0 == c;
            assert(filters@[f].1 == shape[c]);
        }
    }
    true
}

/// The column of a valid shape that becomes trie level `l`.
fn level_column(shape: &IndexShape, l: usize) -> (col: usize)
    requires
        exists|c: int| 0 <= c < shape@.len() && shape@[c] is TrieLevel && shape@[c]->TrieLevel_0 == l,
    ensures
        col < shape@.len(),
        shape@[col as int] == IndexColumnShape::TrieLevel(l),
{
    let mut c: usize = 0;
    while c < shape.len()
        invariant
            c <= shape@.len(),
            forall|c2: int| 0 <= c2 < c ==> shape@[c2] != IndexColumnShape::TrieLevel(l),
            exists|c: int| 0 <= c < shape@.len() && shape@[c] is TrieLevel && shape@[c]->TrieLevel_0 == l,
        decreases shape@.len() - c,
    {
        if shape[c] == IndexColumnShape::TrieLevel(l) {
            return c;
        }
        c = c + 1;
    }
    proof {
        let c2 = choose|c: int| 0 <= c < shape@.len() && shape@[c] is TrieLevel && shape@[c]->TrieLevel_0 == l;
        assert(shape@[c2] == IndexColumnShape::TrieLevel(l));
    }
    0
}

impl Trie {
    /// Builds the index of relation `rel` with the given shape. `None` means that the
    /// index is empty; `Some(Trie::Leaf)` is the index holding just the empty tuple.
    pub fn build<Db: Database>(db: &Db, rel: Db::Rel, shape: &IndexShape) -> (r: Option<Trie>)
        requires
            shape_valid(shape@),
            db.has_rel(rel@),
            db.rel_arity(rel@) == shape@.len(),
        ensures
            indexes_rows(r, db.rel_rows(rel@), shape@),
    {
        let ghost sh = shape@;
        let ghost rows = db.rel_rows(rel@);
        proof {
            db.lemma_rows_have_arity(rel@);
        }
        // The number of trie levels.
        let mut n_lv: usize = 0;
        let mut c: usize = 0;
        while c < shape.len()
            invariant
                c <= sh.len(),
                sh == shape@,
                n_lv == n_levels(sh.take(c as int)),
                n_lv <= c,
            decreases sh.len() - c,
        {
            assert(sh.take(c + 1).drop_last() =~= sh.take(c as int));
            if let IndexColumnShape::TrieLevel(_) = shape[c] {
                n_lv = n_lv + 1;
            }
            c = c + 1;
        }
        assert(sh.take(sh.len() as int) =~= sh);
        // level_to_col[k] is the column that becomes trie level k; `filters` are the
        // columns carrying EqConst/EqColumn checks.
        let mut filters: Vec<(usize, IndexColumnShape)> = Vec::new();
        let mut c: usize = 0;
        while c < shape.len()
            invariant
                c <= sh.len(),
                sh == shape@,
                forall|f: int|
                    0 <= f < filters@.len() ==> (#[trigger] filters@[f]).0 < c && sh[filters@[f].0 as int]
                        == filters@[f].1 && !(filters@[f].1 is TrieLevel),
                forall|c2: int|
                    0 <= c2 < c && !(#[trigger] sh[c2] is TrieLevel) ==> exists|f: int|
                        0 <= f < filters@.len() && filters@[f].0 == c2,
            decreases sh.len() - c,
        {
            let colshape = shape[c];
            let ghost old_filters = filters@;
            if !matches!(colshape, IndexColumnShape::TrieLevel(_)) {
                filters.push((c, colshape));
                assert(filters@[filters@.len() - 1].0 == c);
            }
            assert forall|c2: int|
                0 <= c2 < c + 1 && !(#[trigger] sh[c2] is TrieLevel) implies exists|f: int|
                    0 <= f < filters@.len() && filters@[f].0 == c2 by {
                if c2 < c {
                    let f = choose|f: int| 0 <= f < old_filters.len() && old_filters[f].0 == c2;
                    assert(filters@[f] == old_filters[f]);
                } else {
                    assert(filters@[filters@.len() - 1].0 == c2);
                }
            }
            c = c + 1;
        }
        let mut level_to_col: Vec<usize> = Vec::new();
        let mut l: usize = 0;
        while l < n_lv
            invariant
                l <= n_lv,
                sh == shape@,
                shape_valid(sh),
                n_lv == n_levels(sh),
                level_to_col@.len() == l,
                forall|l2: int|
                    0 <= l2 < l ==> #[trigger] level_to_col@[l2] < sh.len() && sh[level_to_col@[l2] as int]
                        == IndexColumnShape::TrieLevel(l2 as usize),
            decreases n_lv - l,
        {
            proof {
                lemma_levels_onto(sh, l as int);
            }
            let col = level_column(shape, l);
            level_to_col.push(col);
            l = l + 1;
        }

        let count = db.count(rel);
        let mut root: TrieMap = HashMap::new();
        // For zero levels (an atom with no variables, like R(2)) there is no root node;
        // we only need to know whether any row survived the filters.
        let mut any_row = false;
        let mut k: usize = 0;
        while k < count
            invariant
                k <= count,
                count == rows.len(),
                rows == db.rel_rows(rel@),
                db.has_rel(rel@),
                sh == shape@,
                shape_valid(sh),
                n_lv == n_levels(sh),
                forall|k2: int| 0 <= k2 < rows.len() ==> #[trigger] rows[k2].len() == sh.len(),
                level_to_col@.len() == n_lv,
                forall|l2: int|
                    0 <= l2 < n_lv ==> #[trigger] level_to_col@[l2] < sh.len() && sh[level_to_col@[l2] as int]
                        == IndexColumnShape::TrieLevel(l2 as usize),
                forall|f: int|
                    0 <= f < filters@.len() ==> (#[trigger] filters@[f]).0 < sh.len() && sh[filters@[f].0 as int]
                        == filters@[f].1 && !(filters@[f].1 is TrieLevel),
                forall|c2: int|
                    0 <= c2 < sh.len() && !(#[trigger] sh[c2] is TrieLevel) ==> exists|f: int|
                        0 <= f < filters@.len() && filters@[f].0 == c2,
                any_row <==> exists|k2: int| 0 <= k2 < k && row_passes(#[trigger] rows[k2], sh),
                n_lv > 0 ==> trie_wf(Trie::Node(root), n_lv as nat),
                n_lv > 0 ==> forall|key: Value| #[trigger] root@.contains_key(key) ==> no_empty_node(root@[key], (n_lv - 1) as nat),
                n_lv > 0 && any_row ==> exists|key: Value| root@.contains_key(key),
                n_lv > 0 ==> forall|p: Seq<Value>|
                    #[trigger] trie_has(Trie::Node(root), p) <==> exists|k2: int|
                        0 <= k2 < k && row_passes(#[trigger] rows[k2], sh) && row_path(
                            rows[k2],
                            sh,
                            p,
                        ),
            decreases count - k,
        {
            let row = db.row(rel, k);
            assert(row@ == rows[k as int]);
            let keep = filters_accept(row, &filters, Ghost(sh));
            if keep {
                any_row = true;
                if n_lv > 0 {
                    // Walk the row's path into the trie, materializing nodes on the way.
                    let mut path: Vec<Value> = Vec::new();
                    let mut l: usize = 0;
                    while l < n_lv
                        invariant
                            l <= n_lv,
                            row@.len() == sh.len(),
                            level_to_col@.len() == n_lv,
                            forall|l2: int|
                                0 <= l2 < n_lv ==> #[trigger] level_to_col@[l2] < sh.len(),
                            path@.len() == l,
                            forall|l2: int|
                                0 <= l2 < l ==> #[trigger] path@[l2] == row@[level_to_col@[l2] as int],
                        decreases n_lv - l,
                    {
                        path.push(row[level_to_col[l]]);
                        l = l + 1;
                    }
                    assert(row_path(row@, sh, path@)) by {
                        assert forall|c2: int|
                            0 <= c2 < sh.len() && (#[trigger] sh[c2]) is TrieLevel implies path@[sh[c2]->TrieLevel_0 as int]
                                == row@[c2] by {
                            let l2 = sh[c2]->TrieLevel_0 as int;
                            let c3 = level_to_col@[l2] as int;
                            assert(sh[c3] is TrieLevel);
                        }
                    }
                    let ghost old_root = root;
                    insert_path(&mut root, &path, 0);
                    proof {
                        lemma_full_node(root, n_lv as nat);
                    }
                    assert(path@.skip(0) =~= path@);
                    assert forall|p: Seq<Value>|
                        #[trigger] trie_has(Trie::Node(root), p) <==> exists|k2: int|
                            0 <= k2 < k + 1 && row_passes(#[trigger] rows[k2], sh) && row_path(
                                rows[k2],
                                sh,
                                p,
                            ) by {
                        if p == path@ {
                            assert(row_passes(rows[k as int], sh));
                        }
                        if exists|k2: int|
                            0 <= k2 < k + 1 && row_passes(#[trigger] rows[k2], sh) && row_path(
                                rows[k2],
                                sh,
                                p,
                            ) {
                            let k2 = choose|k2: int|
                                0 <= k2 < k + 1 && row_passes(#[trigger] rows[k2], sh)
                                    && row_path(rows[k2], sh, p);
                            if k2 == k {
                                lemma_row_path_unique(row@, sh, p, path@);
                            }
                        }
                    }
                }
            }
            proof {
                if !keep && n_lv > 0 {
                    assert forall|p: Seq<Value>|
                        #[trigger] trie_has(Trie::Node(root), p) <==> exists|k2: int|
                            0 <= k2 < k + 1 && row_passes(#[trigger] rows[k2], sh) && row_path(
                                rows[k2],
                                sh,
                                p,
                            ) by {
                        if exists|k2: int|
                            0 <= k2 < k + 1 && row_passes(#[trigger] rows[k2], sh) && row_path(
                                rows[k2],
                                sh,
                                p,
                            ) {
                            let k2 = choose|k2: int|
                                0 <= k2 < k + 1 && row_passes(#[trigger] rows[k2], sh)
                                    && row_path(rows[k2], sh, p);
                            assert(k2 != k);
                        }
                    }
                }
                if keep {
                    assert(row_passes(rows[k as int], sh));
                }
                if any_row && !keep {
                    let k2 = choose|k2: int| 0 <= k2 < k && row_passes(#[trigger] rows[k2], sh);
                }
            }
            k = k + 1;
        }
        if !any_row {
            None
        } else if n_lv == 0 {
            proof {
                assert forall|p: Seq<Value>|
                    #[trigger] trie_has(Trie::Leaf, p) <==> exists|k2: int|
                        0 <= k2 < rows.len() && row_passes(#[trigger] rows[k2], sh) && row_path(
                            rows[k2],
                            sh,
                            p,
                        ) by {
                    let k2 = choose|k2: int| 0 <= k2 < count && row_passes(#[trigger] rows[k2], sh);
                    if p.len() == 0 {
                        assert forall|c2: int|
                            0 <= c2 < sh.len() && (#[trigger] sh[c2]) is TrieLevel implies p[sh[c2]->TrieLevel_0 as int]
                                == rows[k2][c2] by {
                            assert(sh[c2]->TrieLevel_0 < n_levels(sh));
                        }
                        assert(row_path(rows[k2], sh, p));
                    }
                }
            }
            Some(Trie::Leaf)
        } else {
            proof {
                lemma_full_node(root, n_lv as nat);
            }
            Some(Trie::Node(root))
        }
    }
}

// ---------- INDEX SHAPES FOR ATOMS ----------

/// Column `c` holds the first occurrence of its variable.
pub open spec fn is_first<K>(av: Seq<K>, c: int) -> bool {
    first_index(av, av[c]) == c
}

/// The trie level of column `c`: how many of the atom's distinct variables come before its
/// variable in the variable order `ov`.
pub open spec fn col_rank<K>(av: Seq<K>, ov: Seq<K>, c: int) -> nat {
    count_below(
        av.len() as int,
        |c2: int| is_first(av, c2) && first_index(ov, av[c2]) < first_index(ov, av[c]),
    )
}

/// The index shape of an atom over variables `av`, given the variable order `ov`: the
/// first occurrence of a variable becomes the trie level of the variable's rank among the
/// atom's variables in the order; a repeated occurrence becomes a check against the first.
pub open spec fn shape_spec<K>(av: Seq<K>, ov: Seq<K>) -> Seq<IndexColumnShape> {
    Seq::new(
        av.len(),
        |c: int|
            if is_first(av, c) {
                IndexColumnShape::TrieLevel(col_rank(av, ov, c) as usize)
            } else {
                IndexColumnShape::EqColumn(first_index(av, av[c]) as usize)
            },
    )
}

proof fn lemma_n_levels_count(s: Seq<IndexColumnShape>)
    ensures
        n_levels(s) == count_below(s.len() as int, |c: int| s[c] is TrieLevel),
    decreases s.len(),
{
    if s.len() > 0 {
        let init = s.drop_last();
        lemma_n_levels_count(init);
        lemma_count_ext(
            init.len() as int,
            |c: int| init[c] is TrieLevel,
            |c: int| s[c] is TrieLevel,
        );
    }
}

/// The shape of an atom whose variables all appear in a repetition-free order is valid,
/// with one level per distinct variable.
pub(crate) proof fn lemma_shape_spec_levels<K>(av: Seq<K>, ov: Seq<K>)
    ensures
        n_levels(shape_spec(av, ov)) == count_below(av.len() as int, |c: int| is_first(av, c)),
{
    let sh = shape_spec(av, ov);
    lemma_n_levels_count(sh);
    lemma_count_ext(av.len() as int, |c: int| sh[c] is TrieLevel, |c: int| is_first(av, c));
}

pub(crate) proof fn lemma_shape_spec_valid<K>(av: Seq<K>, ov: Seq<K>)
    requires
        av.len() <= usize::MAX,
        ov.no_duplicates(),
        forall|c: int| 0 <= c < av.len() ==> ov.contains(#[trigger] av[c]),
    ensures
        shape_valid(shape_spec(av, ov)),
        n_levels(shape_spec(av, ov)) == count_below(av.len() as int, |c: int| is_first(av, c)),
{
    let sh = shape_spec(av, ov);
    let n = av.len() as int;
    let firsts = |c: int| is_first(av, c);
    lemma_n_levels_count(sh);
    lemma_count_ext(n, |c: int| sh[c] is TrieLevel, firsts);
    assert forall|c: int| 0 <= c < n implies 0 <= #[trigger] first_index(av, av[c]) <= c by {
        lemma_first_index(av, av[c]);
    }
    // Levels are in range.
    assert forall|c: int|
        0 <= c < sh.len() && (#[trigger] sh[c]) is TrieLevel implies sh[c]->TrieLevel_0 < n_levels(sh) by {
        let pc = |c2: int| is_first(av, c2) && first_index(ov, av[c2]) < first_index(ov, av[c]);
        lemma_count_mono(n, pc, firsts);
        lemma_count_le(n, firsts);
        assert(firsts(c) && !pc(c));
        assert(col_rank(av, ov, c) == count_below(n, pc));
        assert(col_rank(av, ov, c) < n_levels(sh));
    }
    // Levels are distinct.
    assert forall|c1: int, c2: int|
        0 <= c1 < sh.len() && 0 <= c2 < sh.len() && c1 != c2 && (#[trigger] sh[c1]) is TrieLevel
            && (#[trigger] sh[c2]) is TrieLevel implies sh[c1]->TrieLevel_0 != sh[c2]->TrieLevel_0 by {
        lemma_first_index(ov, av[c1]);
        lemma_first_index(ov, av[c2]);
        let p1 = first_index(ov, av[c1]);
        let p2 = first_index(ov, av[c2]);
        assert(av[c1] != av[c2]);
        assert(p1 != p2);
        let q1 = |c3: int| is_first(av, c3) && first_index(ov, av[c3]) < p1;
        let q2 = |c3: int| is_first(av, c3) && first_index(ov, av[c3]) < p2;
        lemma_count_ext(n, q1, |c3: int| is_first(av, c3) && first_index(ov, av[c3]) < first_index(ov, av[c1]));
        lemma_count_ext(n, q2, |c3: int| is_first(av, c3) && first_index(ov, av[c3]) < first_index(ov, av[c2]));
        assert(col_rank(av, ov, c1) == count_below(n, q1));
        assert(col_rank(av, ov, c2) == count_below(n, q2));
        lemma_count_le(n, q1);
        lemma_count_le(n, q2);
        if p1 < p2 {
            lemma_count_mono(n, q1, q2);
            assert(q2(c1) && !q1(c1));
            assert(col_rank(av, ov, c1) < col_rank(av, ov, c2));
        } else {
            lemma_count_mono(n, q2, q1);
            assert(q1(c2) && !q2(c2));
            assert(col_rank(av, ov, c2) < col_rank(av, ov, c1));
        }
    }
    // Repeated columns refer back to a first occurrence.
    assert forall|c: int|
        0 <= c < sh.len() && (#[trigger] sh[c]) is EqColumn implies ({
            let j = sh[c]->EqColumn_0;
            j < c && sh[j as int] is TrieLevel
        }) by {
        let j = first_index(av, av[c]);
        lemma_first_index(av, av[c]);
        assert(av[j] == av[c]);
        assert(is_first(av, j));
    }
}

/// The index shape of an atom with variables `atom_vars`, given the variable order.
fn index_shape<Var: Ident>(order: &[Var], atom_vars: &Vec<Var>) -> (shape: IndexShape)
    requires
        views(order@).no_duplicates(),
        forall|c: int|
            0 <= c < atom_vars@.len() ==> views(order@).contains(#[trigger] atom_vars@[c]@),
    ensures
        shape@ == shape_spec(views(atom_vars@), views(order@)),
{
    let ghost av = views(atom_vars@);
    let ghost ov = views(order@);
    let n = atom_vars.len();
    // first_col[c] = the first column holding the same variable as column c;
    // pos[c] = the position of column c's variable in the order.
    let mut first_col: Vec<usize> = Vec::new();
    let mut pos: Vec<usize> = Vec::new();
    let mut c: usize = 0;
    while c < n
        invariant
            c <= n,
            n == atom_vars@.len(),
            av == views(atom_vars@),
            ov == views(order@),
            forall|c2: int| 0 <= c2 < n ==> ov.contains(#[trigger] atom_vars@[c2]@),
            first_col@.len() == c,
            pos@.len() == c,
            forall|c2: int| 0 <= c2 < c ==> #[trigger] first_col@[c2] == first_index(av, av[c2]),
            forall|c2: int| 0 <= c2 < c ==> #[trigger] pos@[c2] == first_index(ov, av[c2]),
        decreases n - c,
    {
        assert(av[c as int] == atom_vars@[c as int]@);
        let f = find(atom_vars.as_slice(), &atom_vars[c]);
        let p = find(order, &atom_vars[c]);
        proof {
            lemma_first_index(av, av[c as int]);
            assert(av.contains(av[c as int]));
        }
        first_col.push(f.unwrap());
        pos.push(p.unwrap());
        c = c + 1;
    }
    let mut shape: IndexShape = Vec::new();
    let mut c: usize = 0;
    while c < n
        invariant
            c <= n,
            n == atom_vars@.len(),
            n == av.len(),
            first_col@.len() == n,
            pos@.len() == n,
            forall|c2: int| 0 <= c2 < n ==> #[trigger] first_col@[c2] == first_index(av, av[c2]),
            forall|c2: int| 0 <= c2 < n ==> #[trigger] pos@[c2] == first_index(ov, av[c2]),
            shape@.len() == c,
            forall|c2: int| 0 <= c2 < c ==> #[trigger] shape@[c2] == shape_spec(av, ov)[c2],
        decreases n - c,
    {
        if first_col[c] == c {
            // The rank of this variable among the atom's distinct variables.
            let ghost pc = |c2: int| is_first(av, c2) && first_index(ov, av[c2]) < first_index(ov, av[c as int]);
            let mut rank: usize = 0;
            let mut c2: usize = 0;
            while c2 < n
                invariant
                    c2 <= n,
                    n == av.len(),
                    c < n,
                    first_col@.len() == n,
                    pos@.len() == n,
                    forall|c3: int| 0 <= c3 < n ==> #[trigger] first_col@[c3] == first_index(av, av[c3]),
                    forall|c3: int| 0 <= c3 < n ==> #[trigger] pos@[c3] == first_index(ov, av[c3]),
                    rank == count_below(c2 as int, pc),
                    rank <= c2,
                    forall|c3: int| #[trigger] pc(c3) == (is_first(av, c3) && first_index(ov, av[c3]) < first_index(ov, av[c as int])),
                decreases n - c2,
            {
                assert(count_below(c2 + 1, pc) == count_below(c2 as int, pc) + if pc(c2 as int) { 1nat } else { 0nat });
                if first_col[c2] == c2 && pos[c2] < pos[c] {
                    rank = rank + 1;
                }
                c2 = c2 + 1;
            }
            shape.push(IndexColumnShape::TrieLevel(rank));
        } else {
            shape.push(IndexColumnShape::EqColumn(first_col[c]));
        }
        c = c + 1;
    }
    assert(shape@ =~= shape_spec(av, ov));
    shape
}

// ---------- QUERIES ----------

/// An atom applies its predicate `pred` to `vars`. A relational atom (`Atom<Rel, Var>`)
/// matches rows of a database relation; a computational atom (`Atom<Op, Var>`) applies an
/// operator, whose first `input_arity()` variables are its inputs and whose last variable,
/// if it `has_output()`, is its output.
#[derive(Clone, Debug)]
pub struct Atom<Pred, Var> {
    pub pred: Pred,
    pub vars: Vec<Var>,
}

/// A conjunctive query over variables `Var`, relations `Rel` and operators `Op`.
pub struct Query<Var, Rel, Op = Rc<dyn Operator>> {
    pub vars: Vec<Var>,
    /// Relational atoms.
    pub atoms: Vec<Atom<Rel, Var>>,
    /// Computational atoms (operators).
    pub operators: Vec<Atom<Op, Var>>,
}

/// The views of an atom's variables.
pub open spec fn atom_views<P, Var: View>(atom: Atom<P, Var>) -> Seq<Var::V> {
    views(atom.vars@)
}

// ---------- QUERY PLANS ----------

/// A query plan replaces each relational atom by the shape of the index it needs, and
/// describes, for each variable in the variable order, what to do when binding it.
pub struct QueryPlan<Rel, Op> {
    pub atoms: Vec<(Rel, IndexShape)>,
    /// One level per variable, in variable order.
    pub levels: Vec<Level<Op>>,
}

/// Everything the executor does at one variable's level. Operator atoms here refer to
/// variables by their positions in the variable order.
pub struct Level<Op> {
    /// An operator that computes this variable from earlier ones. If `None`, the trie with
    /// the fewest children at this level proposes values.
    pub proposer: Option<Atom<Op, usize>>,
    /// Operators that check bindings at this level.
    pub filters: Vec<Atom<Op, usize>>,
    /// The positions in the plan's atoms of the atoms constraining this variable.
    pub atoms: Vec<usize>,
}

/// The levels (in increasing order) whose atoms include atom `a`.
pub open spec fn levels_of<Op>(levels: Seq<Level<Op>>, a: int) -> Seq<int>
    decreases levels.len(),
{
    if levels.len() == 0 {
        Seq::empty()
    } else {
        let r = levels_of(levels.drop_last(), a);
        if levels.last().atoms@.contains(a as usize) {
            r.push(levels.len() - 1)
        } else {
            r
        }
    }
}

/// The structural conditions under which levels can be executed over `n_atoms` tries:
/// atom lists are strictly increasing and in range; a proposer computes its level's
/// variable from variables of earlier levels; a filter checks variables bound by its
/// level; and every level has an atom or a proposer to propose values.
pub open spec fn levels_wf<Op: Operator>(levels: Seq<Level<Op>>, n_atoms: int) -> bool {
    forall|i: int| 0 <= i < levels.len() ==> level_wf(#[trigger] levels[i], i, n_atoms)
}

pub open spec fn level_wf<Op: Operator>(level: Level<Op>, i: int, n_atoms: int) -> bool {
    &&& forall|j: int| 0 <= j < level.atoms@.len() ==> #[trigger] level.atoms@[j] < n_atoms
    &&& forall|j1: int, j2: int|
        0 <= j1 < j2 < level.atoms@.len() ==> #[trigger] level.atoms@[j1] < #[trigger] level.atoms@[j2]
    &&& match level.proposer {
        Some(p) => {
            &&& p.pred.spec_has_output()
            &&& p.vars@.len() == p.pred.spec_input_arity() + 1
            &&& p.vars@.last() == i
            &&& forall|j: int| 0 <= j < p.vars@.len() - 1 ==> #[trigger] p.vars@[j] < i
        },
        None => true,
    }
    &&& forall|f: int| 0 <= f < level.filters@.len() ==> filter_wf(#[trigger] level.filters@[f], i)
    &&& level.atoms@.len() > 0 || level.proposer is Some
}

pub open spec fn filter_wf<Op: Operator>(f: Atom<Op, usize>, i: int) -> bool {
    &&& f.vars@.len() == crate::op::op_arity(&f.pred)
    &&& forall|j: int| 0 <= j < f.vars@.len() ==> #[trigger] f.vars@[j] <= i
}

impl<Rel, Op: Operator> QueryPlan<Rel, Op> {
    /// Every index shape is valid and has one trie level per level of its atom, and the
    /// levels can be executed.
    pub open spec fn wf(&self) -> bool {
        &&& forall|a: int|
            0 <= a < self.atoms@.len() ==> shape_valid((#[trigger] self.atoms@[a]).1@) && n_levels(
                self.atoms@[a].1@,
            ) == levels_of(self.levels@, a).len()
        &&& levels_wf(self.levels@, self.atoms@.len() as int)
    }
}

// ---------- PLANNING ----------

/// Why a query cannot be planned with a given variable order.
#[derive(Clone, Copy, Debug, PartialEq, Eq, Structural)]
pub enum PlanError {
    /// The variable order repeats a variable.
    RepeatedVar,
    /// The relational atom at this index uses a variable missing from the order.
    UnorderedAtomVar(usize),
    /// The operator at this index has the wrong number of variables for its arity.
    OperatorArity(usize),
    /// The operator at this index has no variables.
    OperatorNoVars(usize),
    /// The operator at this index uses a variable missing from the order.
    UnorderedOperatorVar(usize),
    /// The variable at this order position has no proposer: no atom binds it and no
    /// operator computes it.
    NoProposer(usize),
}

/// Every member of `vs` occurs in `ov`.
pub open spec fn all_in<K>(vs: Seq<K>, ov: Seq<K>) -> bool {
    forall|j: int| 0 <= j < vs.len() ==> ov.contains(#[trigger] vs[j])
}

/// The positions in the order `ov` of the variables `vs`.
pub open spec fn positions<K>(vs: Seq<K>, ov: Seq<K>) -> Seq<usize> {
    vs.map_values(|v: K| first_index(ov, v) as usize)
}

/// The largest member of `s`, or -1 for an empty sequence.
pub open spec fn seq_max(s: Seq<usize>) -> int
    decreases s.len(),
{
    if s.len() == 0 {
        -1
    } else {
        let m = seq_max(s.drop_last());
        if m < s.last() {
            s.last() as int
        } else {
            m
        }
    }
}

/// An operator atom with the right number of variables, at least one, all in the order.
pub open spec fn op_ok<Op: Operator, Var: View>(op: Atom<Op, Var>, ov: Seq<Var::V>) -> bool {
    &&& op.vars@.len() == crate::op::op_arity(&op.pred)
    &&& op.vars@.len() > 0
    &&& all_in(atom_views(op), ov)
}

/// The level of an operator: the position of its last variable in the order.
pub open spec fn op_level<Op, Var: View>(op: Atom<Op, Var>, ov: Seq<Var::V>) -> int {
    seq_max(positions(atom_views(op), ov))
}

/// The operator computes the variable of its level.
pub open spec fn op_proposes<Op: Operator, Var: View>(op: Atom<Op, Var>, ov: Seq<Var::V>) -> bool {
    &&& op.pred.spec_has_output()
    &&& positions(atom_views(op), ov)[op.pred.spec_input_arity() as int] == op_level(op, ov)
}

/// The operators (by index) of level `i`: its proposer, the first operator of the level
/// that computes the level's variable, and its filters, all the others, in order.
pub open spec fn level_ops<Op: Operator, Var: View>(
    ops: Seq<Atom<Op, Var>>,
    ov: Seq<Var::V>,
    i: int,
) -> (Option<int>, Seq<int>)
    decreases ops.len(),
{
    if ops.len() == 0 {
        (None, Seq::empty())
    } else {
        let (pr, fl) = level_ops(ops.drop_last(), ov, i);
        let k = ops.len() - 1;
        if op_level(ops[k], ov) == i {
            if op_proposes(ops[k], ov) && pr is None {
                (Some(k), fl)
            } else {
                (pr, fl.push(k))
            }
        } else {
            (pr, fl)
        }
    }
}

/// The relational atoms (by index, increasing) that mention the variable `x`.
pub open spec fn atoms_with<Rel, Var: View>(atoms: Seq<Atom<Rel, Var>>, x: Var::V) -> Seq<usize>
    decreases atoms.len(),
{
    if atoms.len() == 0 {
        Seq::empty()
    } else {
        let r = atoms_with(atoms.drop_last(), x);
        if atom_views(atoms.last()).contains(x) {
            r.push((atoms.len() - 1) as usize)
        } else {
            r
        }
    }
}

/// The operator atom `op` with its variables replaced by their positions in the order.
pub open spec fn placed<Op, Var: View>(
    op: Atom<Op, Var>,
    ov: Seq<Var::V>,
    p: Atom<&Op, usize>,
) -> bool {
    *p.pred == op.pred && p.vars@ == positions(atom_views(op), ov)
}

impl<Var: Ident, Rel: Ident, Op: Operator> Query<Var, Rel, Op> {
    /// The plan for this query and the order `ov`: per atom, its relation and shape; per
    /// level, the atoms mentioning its variable, and its proposer and filters.
    pub open spec fn is_plan(&self, ov: Seq<Var::V>, p: QueryPlan<Rel, &Op>) -> bool {
        &&& p.atoms@.len() == self.atoms@.len()
        &&& forall|a: int|
            0 <= a < self.atoms@.len() ==> (#[trigger] p.atoms@[a]).0 == self.atoms@[a].pred
                && p.atoms@[a].1@ == shape_spec(atom_views(self.atoms@[a]), ov)
        &&& p.levels@.len() == ov.len()
        &&& forall|i: int|
            0 <= i < ov.len() ==> {
                let level = #[trigger] p.levels@[i];
                let (pr, fl) = level_ops(self.operators@, ov, i);
                &&& level.atoms@ == atoms_with(self.atoms@, ov[i])
                &&& match pr {
                    None => level.proposer is None,
                    Some(k) => level.proposer matches Some(prop) && placed(
                        self.operators@[k],
                        ov,
                        prop,
                    ),
                }
                &&& level.filters@.len() == fl.len()
                &&& forall|j: int|
                    0 <= j < fl.len() ==> placed(
                        self.operators@[fl[j]],
                        ov,
                        #[trigger] level.filters@[j],
                    )
            }
    }

    /// No operator reads its own output as an input.
    pub open spec fn outputs_not_inputs(&self) -> bool {
        forall|k: int|
            0 <= k < self.operators@.len() && (#[trigger] self.operators@[k]).pred.spec_has_output()
                ==> {
                let v = atom_views(self.operators@[k]);
                let n = self.operators@[k].pred.spec_input_arity() as int;
                n < v.len() ==> forall|j: int| 0 <= j < n ==> v[j] != v[n]
            }
    }
}

/// Whether the order repeats no variable.
fn order_distinct<Var: Ident>(order: &[Var]) -> (b: bool)
    ensures
        b == views(order@).no_duplicates(),
{
    let ghost ov = views(order@);
    let mut i: usize = 0;
    while i < order.len()
        invariant
            i <= order@.len(),
            ov == views(order@),
            forall|j: int| 0 <= j < i ==> first_index(ov, #[trigger] ov[j]) == j,
        decreases order@.len() - i,
    {
        let f = find(order, &order[i]);
        if f != Some(i) {
            proof {
                assert(ov[i as int] == order@[i as int]@);
                lemma_first_index(ov, ov[i as int]);
                let j = first_index(ov, ov[i as int]);
                assert(ov[j] == ov[i as int] && j != i);
            }
            return false;
        }
        i = i + 1;
    }
    assert forall|j1: int, j2: int| 0 <= j1 < ov.len() && 0 <= j2 < ov.len() && j1 != j2 implies ov[j1] != ov[j2] by {
        if ov[j1] == ov[j2] {
            assert(first_index(ov, ov[j1]) == j1);
            assert(first_index(ov, ov[j2]) == j2);
        }
    }
    true
}

/// Whether every variable in `vars` appears in the order.
fn all_vars_in<Var: Ident>(vars: &Vec<Var>, order: &[Var]) -> (b: bool)
    ensures
        b == all_in(views(vars@), views(order@)),
{
    let mut j: usize = 0;
    while j < vars.len()
        invariant
            j <= vars@.len(),
            forall|j2: int| 0 <= j2 < j ==> views(order@).contains(#[trigger] views(vars@)[j2]),
        decreases vars@.len() - j,
    {
        let f = find(order, &vars[j]);
        assert(views(vars@)[j as int] == vars@[j as int]@);
        if f.is_none() {
            return false;
        }
        proof {
            let i = f->0 as int;
            assert(views(order@)[i] == order@[i]@);
        }
        j = j + 1;
    }
    true
}

/// The positions in the order of `vars`, all of which appear in it.
fn positions_of<Var: Ident>(vars: &Vec<Var>, order: &[Var]) -> (r: Vec<usize>)
    requires
        all_in(views(vars@), views(order@)),
    ensures
        r@ == positions(views(vars@), views(order@)),
{
    let mut r: Vec<usize> = Vec::new();
    let mut j: usize = 0;
    while j < vars.len()
        invariant
            j <= vars@.len(),
            all_in(views(vars@), views(order@)),
            r@.len() == j,
            forall|j2: int| 0 <= j2 < j ==> #[trigger] r@[j2] == positions(views(vars@), views(order@))[j2],
        decreases vars@.len() - j,
    {
        assert(views(vars@)[j as int] == vars@[j as int]@);
        assert(views(order@).contains(views(vars@)[j as int]));
        let p = find(order, &vars[j]).unwrap();
        r.push(p);
        j = j + 1;
    }
    assert(r@ =~= positions(views(vars@), views(order@)));
    r
}

/// The largest member of a nonempty vector.
fn max_of(v: &Vec<usize>) -> (m: usize)
    requires
        v@.len() > 0,
    ensures
        m == seq_max(v@),
{
    let mut m: usize = v[0];
    let mut j: usize = 1;
    assert(v@.take(1).drop_last() =~= Seq::<usize>::empty());
    assert(v@.take(1).last() == v@[0]);
    assert(seq_max(v@.take(1)) == v@[0]) by {
        reveal_with_fuel(seq_max, 2);
    }
    while j < v.len()
        invariant
            1 <= j <= v@.len(),
            m == seq_max(v@.take(j as int)),
        decreases v@.len() - j,
    {
        assert(v@.take(j + 1).drop_last() =~= v@.take(j as int));
        assert(v@.take(j + 1).last() == v@[j as int]);
        if m < v[j] {
            m = v[j];
        }
        j = j + 1;
    }
    assert(v@.take(v@.len() as int) =~= v@);
    m
}

impl<Var: Ident, Rel: Ident, Op: Operator> Query<Var, Rel, Op> {
    /// The query can be planned with the order `ov`.
    pub open spec fn plannable(&self, ov: Seq<Var::V>) -> bool {
        &&& ov.no_duplicates()
        &&& forall|a: int| 0 <= a < self.atoms@.len() ==> all_in(atom_views(#[trigger] self.atoms@[a]), ov)
        &&& forall|k: int| 0 <= k < self.operators@.len() ==> op_ok(#[trigger] self.operators@[k], ov)
        &&& forall|i: int|
            0 <= i < ov.len() ==> (#[trigger] atoms_with(self.atoms@, ov[i])).len() > 0 || level_ops(
                self.operators@,
                ov,
                i,
            ).0 is Some
    }

    /// Plans the query for the variable order `order`, which must be plannable; see
    /// `try_plan`.
    pub fn plan<'q>(&'q self, order: &[Var]) -> (p: QueryPlan<Rel, &'q Op>)
        requires
            self.plannable(views(order@)),
        ensures
            self.is_plan(views(order@), p),
            self.outputs_not_inputs() ==> p.wf(),
    {
        self.try_plan(order).unwrap()
    }

    /// Plans the query for the variable order `order`: computes each atom's index shape,
    /// and assigns atoms and operators to the levels of the order. An operator goes to the
    /// level of its last variable in the order, where it proposes that variable if it is
    /// the operator's output and no earlier operator does so; otherwise it filters.
    /// Returns the first reason the order does not fit the query, if there is one.
    pub fn try_plan<'q>(&'q self, order: &[Var]) -> (r: Result<QueryPlan<Rel, &'q Op>, PlanError>)
        ensures
            r is Ok <==> self.plannable(views(order@)),
            self.outputs_not_inputs() ==> (r matches Ok(p) ==> p.wf()),
            match r {
                Ok(p) => self.is_plan(views(order@), p),
                Err(PlanError::RepeatedVar) => !views(order@).no_duplicates(),
                Err(PlanError::UnorderedAtomVar(a)) => {
                    &&& views(order@).no_duplicates()
                    &&& a < self.atoms@.len()
                    &&& !all_in(atom_views(self.atoms@[a as int]), views(order@))
                    &&& forall|a2: int| 0 <= a2 < a ==> all_in(atom_views(#[trigger] self.atoms@[a2]), views(order@))
                },
                Err(PlanError::OperatorArity(k)) => {
                    &&& self.atoms_and_ops_ok_before(views(order@), k as int)
                    &&& self.operators@[k as int].vars@.len() != crate::op::op_arity(&self.operators@[k as int].pred)
                },
                Err(PlanError::OperatorNoVars(k)) => {
                    &&& self.atoms_and_ops_ok_before(views(order@), k as int)
                    &&& self.operators@[k as int].vars@.len() == crate::op::op_arity(&self.operators@[k as int].pred)
                    &&& self.operators@[k as int].vars@.len() == 0
                },
                Err(PlanError::UnorderedOperatorVar(k)) => {
                    &&& self.atoms_and_ops_ok_before(views(order@), k as int)
                    &&& self.operators@[k as int].vars@.len() == crate::op::op_arity(&self.operators@[k as int].pred)
                    &&& self.operators@[k as int].vars@.len() > 0
                    &&& !all_in(atom_views(self.operators@[k as int]), views(order@))
                },
                Err(PlanError::NoProposer(i)) => {
                    &&& self.atoms_and_ops_ok_before(views(order@), self.operators@.len() as int)
                    &&& i < order@.len()
                    &&& atoms_with(self.atoms@, views(order@)[i as int]).len() == 0
                    &&& level_ops(self.operators@, views(order@), i as int).0 is None
                    &&& forall|i2: int| 0 <= i2 < i ==> (#[trigger] atoms_with(self.atoms@, views(order@)[i2])).len() > 0
                        || level_ops(self.operators@, views(order@), i2).0 is Some
                },
            },
    {
        let ghost ov = views(order@);
        if !order_distinct(order) {
            return Err(PlanError::RepeatedVar);
        }
        let n = order.len();
        let mut levels: Vec<Level<&'q Op>> = Vec::new();
        while levels.len() < n
            invariant
                levels@.len() <= n,
                forall|i: int| 0 <= i < levels@.len() ==> (#[trigger] levels@[i]).atoms@ == Seq::<usize>::empty()
                    && levels@[i].proposer is None && levels@[i].filters@ == Seq::<Atom<&'q Op, usize>>::empty(),
            decreases n - levels@.len(),
        {
            levels.push(Level { proposer: None, filters: Vec::new(), atoms: Vec::new() });
        }
        // For each atom, compute its index shape and put it in the levels of its variables.
        let mut atoms: Vec<(Rel, IndexShape)> = Vec::new();
        let mut a: usize = 0;
        while a < self.atoms.len()
            invariant
                a <= self.atoms@.len(),
                ov == views(order@),
                ov.no_duplicates(),
                n == ov.len(),
                levels@.len() == n,
                forall|i: int| 0 <= i < n ==> (#[trigger] levels@[i]).atoms@ == atoms_with(self.atoms@.take(a as int), ov[i])
                    && levels@[i].proposer is None && levels@[i].filters@ == Seq::<Atom<&'q Op, usize>>::empty(),
                atoms@.len() == a,
                forall|a2: int| 0 <= a2 < a ==> (#[trigger] atoms@[a2]).0 == self.atoms@[a2].pred
                    && atoms@[a2].1@ == shape_spec(atom_views(self.atoms@[a2]), ov),
                forall|a2: int| 0 <= a2 < a ==> all_in(atom_views(#[trigger] self.atoms@[a2]), ov),
                forall|a2: int| 0 <= a2 < a ==> shape_valid(shape_spec(atom_views(#[trigger] self.atoms@[a2]), ov)),
            decreases self.atoms@.len() - a,
        {
            let atom = &self.atoms[a];
            let ghost av = atom_views(*atom);
            if !all_vars_in(&atom.vars, order) {
                return Err(PlanError::UnorderedAtomVar(a));
            }
            assert forall|c: int| 0 <= c < atom.vars@.len() implies ov.contains(#[trigger] atom.vars@[c]@) by {
                assert(av[c] == atom.vars@[c]@);
            }
            let shape = index_shape(order, &atom.vars);
            let n_vars = atom.vars.len();
            proof {
                lemma_shape_spec_valid(av, ov);
            }
            let mut col: usize = 0;
            while col < atom.vars.len()
                invariant
                    col <= atom.vars@.len(),
                    av == atom_views(*atom),
                    av.len() == atom.vars@.len(),
                    all_in(av, ov),
                    ov == views(order@),
                    ov.no_duplicates(),
                    n == ov.len(),
                    a < self.atoms@.len(),
                    *atom == self.atoms@[a as int],
                    shape@ == shape_spec(av, ov),
                    levels@.len() == n,
                    forall|i: int| 0 <= i < n ==> (#[trigger] levels@[i]).atoms@ == atoms_with(self.atoms@.take(a as int), ov[i])
                        + if (exists|c2: int| 0 <= c2 < col && is_first(av, c2) && av[c2] == ov[i]) {
                            seq![a]
                        } else {
                            Seq::<usize>::empty()
                        },
                    forall|i: int| 0 <= i < n ==> (#[trigger] levels@[i]).proposer is None
                        && levels@[i].filters@ == Seq::<Atom<&'q Op, usize>>::empty(),
                decreases atom.vars@.len() - col,
            {
                let ghost old_levels = levels@;
                if let IndexColumnShape::TrieLevel(_) = shape[col] {
                    assert(av[col as int] == atom.vars@[col as int]@);
                    let p = find(order, &atom.vars[col]).unwrap();
                    levels[p].atoms.push(a);
                    proof {
                        lemma_first_index(ov, av[col as int]);
                        assert(is_first(av, col as int));
                        assert forall|i: int| 0 <= i < n implies (#[trigger] levels@[i]).atoms@ == atoms_with(self.atoms@.take(a as int), ov[i])
                            + if (exists|c2: int| 0 <= c2 < col + 1 && is_first(av, c2) && av[c2] == ov[i]) {
                                seq![a]
                            } else {
                                Seq::<usize>::empty()
                            } by {
                            if i == p {
                                if exists|c2: int| 0 <= c2 < col && is_first(av, c2) && av[c2] == ov[i] {
                                    let c2 = choose|c2: int| 0 <= c2 < col && is_first(av, c2) && av[c2] == ov[i];
                                    assert(av[c2] == av[col as int]);
                                }
                                assert(old_levels[i] == levels@[i] || true);
                            } else {
                                assert(levels@[i] == old_levels[i]);
                                assert(ov[i] != av[col as int]);
                                if exists|c2: int| 0 <= c2 < col + 1 && is_first(av, c2) && av[c2] == ov[i] {
                                    let c2 = choose|c2: int| 0 <= c2 < col + 1 && is_first(av, c2) && av[c2] == ov[i];
                                    assert(c2 < col);
                                }
                            }
                        }
                    }
                } else {
                    proof {
                        assert(!is_first(av, col as int));
                        assert forall|i: int| 0 <= i < n implies (exists|c2: int| 0 <= c2 < col + 1 && is_first(av, c2) && av[c2] == #[trigger] ov[i])
                            == (exists|c2: int| 0 <= c2 < col && is_first(av, c2) && av[c2] == ov[i]) by {
                            if exists|c2: int| 0 <= c2 < col + 1 && is_first(av, c2) && av[c2] == ov[i] {
                                let c2 = choose|c2: int| 0 <= c2 < col + 1 && is_first(av, c2) && av[c2] == ov[i];
                                assert(c2 < col);
                            }
                        }
                    }
                }
                col = col + 1;
            }
            proof {
                assert(self.atoms@.take(a + 1).drop_last() =~= self.atoms@.take(a as int));
                assert(self.atoms@.take(a + 1).last() == *atom);
                assert forall|i: int| 0 <= i < n implies (exists|c2: int| 0 <= c2 < av.len() && is_first(av, c2) && av[c2] == #[trigger] ov[i])
                    == av.contains(ov[i]) by {
                    if av.contains(ov[i]) {
                        lemma_first_index(av, ov[i]);
                        let c2 = first_index(av, ov[i]);
                        assert(is_first(av, c2));
                    }
                }
            }
            atoms.push((atom.pred, shape));
            a = a + 1;
        }
        assert(self.atoms@.take(self.atoms@.len() as int) =~= self.atoms@);
        // Each operator goes to the level of its last variable in the order.
        let mut k: usize = 0;
        while k < self.operators.len()
            invariant
                k <= self.operators@.len(),
                ov == views(order@),
                ov.no_duplicates(),
                n == ov.len(),
                levels@.len() == n,
                forall|a2: int| 0 <= a2 < self.atoms@.len() ==> all_in(atom_views(#[trigger] self.atoms@[a2]), ov),
                forall|k2: int| 0 <= k2 < k ==> op_ok(#[trigger] self.operators@[k2], ov),
                forall|a2: int| 0 <= a2 < self.atoms@.len() ==> shape_valid(shape_spec(atom_views(#[trigger] self.atoms@[a2]), ov)),
                atoms@.len() == self.atoms@.len(),
                forall|a2: int| 0 <= a2 < self.atoms@.len() ==> (#[trigger] atoms@[a2]).0 == self.atoms@[a2].pred
                    && atoms@[a2].1@ == shape_spec(atom_views(self.atoms@[a2]), ov),
                forall|i: int| 0 <= i < n ==> {
                    let level = #[trigger] levels@[i];
                    let (pr, fl) = level_ops(self.operators@.take(k as int), ov, i);
                    &&& level.atoms@ == atoms_with(self.atoms@, ov[i])
                    &&& match pr {
                        None => level.proposer is None,
                        Some(k2) => level.proposer matches Some(prop) && placed(self.operators@[k2], ov, prop),
                    }
                    &&& level.filters@.len() == fl.len()
                    &&& forall|j: int| 0 <= j < fl.len() ==> placed(self.operators@[fl[j]], ov, #[trigger] level.filters@[j])
                },
            decreases self.operators@.len() - k,
        {
            let op = &self.operators[k];
            if op.vars.len() != op.pred.arity() {
                return Err(PlanError::OperatorArity(k));
            }
            if op.vars.len() == 0 {
                return Err(PlanError::OperatorNoVars(k));
            }
            if !all_vars_in(&op.vars, order) {
                return Err(PlanError::UnorderedOperatorVar(k));
            }
            let vars = positions_of(&op.vars, order);
            let last_pos = max_of(&vars);
            proof {
                lemma_seq_max_in(vars@);
                let j = choose|j: int| 0 <= j < vars@.len() && vars@[j] == seq_max(vars@);
                assert(atom_views(*op)[j] == op.vars@[j]@);
                assert(ov.contains(atom_views(*op)[j]));
                lemma_first_index(ov, atom_views(*op)[j]);
            }
            let ghost old_levels = levels@;
            let ghost take_k = self.operators@.take(k as int);
            let ghost take_k1 = self.operators@.take(k + 1);
            assert(take_k1.drop_last() =~= take_k);
            assert(take_k1.last() == *op);
            let ins = op.pred.input_arity();
            let proposes = op.pred.has_output() && last_pos == vars[ins] && levels[last_pos].proposer.is_none();
            let placed_op = Atom { pred: &op.pred, vars };
            assert(placed(*op, ov, placed_op));
            if proposes {
                levels[last_pos].proposer = Some(placed_op);
            } else {
                levels[last_pos].filters.push(placed_op);
            }
            proof {
                assert forall|i: int| 0 <= i < n implies {
                    let level = #[trigger] levels@[i];
                    let (pr, fl) = level_ops(take_k1, ov, i);
                    &&& level.atoms@ == atoms_with(self.atoms@, ov[i])
                    &&& match pr {
                        None => level.proposer is None,
                        Some(k2) => level.proposer matches Some(prop) && placed(self.operators@[k2], ov, prop),
                    }
                    &&& level.filters@.len() == fl.len()
                    &&& forall|j: int| 0 <= j < fl.len() ==> placed(self.operators@[fl[j]], ov, #[trigger] level.filters@[j])
                } by {
                    let (pr0, fl0) = level_ops(take_k, ov, i);
                    if i != last_pos {
                        assert(levels@[i] == old_levels[i]);
                    } else {
                        if !proposes {
                            assert forall|j: int| 0 <= j < fl0.len() + 1 implies placed(self.operators@[fl0.push(k as int)[j]], ov, #[trigger] levels@[i].filters@[j]) by {
                                if j < fl0.len() {
                                    assert(levels@[i].filters@[j] == old_levels[i].filters@[j]);
                                }
                            }
                        }
                    }
                }
            }
            k = k + 1;
        }
        assert(self.operators@.take(self.operators@.len() as int) =~= self.operators@);
        // Every variable needs a proposer: an atom that binds it or an operator that computes it.
        let mut i: usize = 0;
        while i < n
            invariant
                i <= n,
                n == ov.len(),
                ov == views(order@),
                ov.no_duplicates(),
                forall|a2: int| 0 <= a2 < self.atoms@.len() ==> shape_valid(shape_spec(atom_views(#[trigger] self.atoms@[a2]), ov)),
                atoms@.len() == self.atoms@.len(),
                forall|a2: int| 0 <= a2 < self.atoms@.len() ==> (#[trigger] atoms@[a2]).0 == self.atoms@[a2].pred
                    && atoms@[a2].1@ == shape_spec(atom_views(self.atoms@[a2]), ov),
                forall|i2: int| 0 <= i2 < n ==> {
                    let level = #[trigger] levels@[i2];
                    let (pr, fl) = level_ops(self.operators@, ov, i2);
                    &&& match pr {
                        None => level.proposer is None,
                        Some(k2) => level.proposer matches Some(prop) && placed(self.operators@[k2], ov, prop),
                    }
                    &&& level.filters@.len() == fl.len()
                    &&& forall|j: int| 0 <= j < fl.len() ==> placed(self.operators@[fl[j]], ov, #[trigger] level.filters@[j])
                },
                forall|a2: int| 0 <= a2 < self.atoms@.len() ==> all_in(atom_views(#[trigger] self.atoms@[a2]), ov),
                forall|k2: int| 0 <= k2 < self.operators@.len() ==> op_ok(#[trigger] self.operators@[k2], ov),
                levels@.len() == n,
                forall|i2: int| 0 <= i2 < n ==> {
                    let level = #[trigger] levels@[i2];
                    &&& level.atoms@ == atoms_with(self.atoms@, ov[i2])
                    &&& (level.proposer is None <==> level_ops(self.operators@, ov, i2).0 is None)
                },
                forall|i2: int| 0 <= i2 < i ==> (#[trigger] atoms_with(self.atoms@, ov[i2])).len() > 0
                    || level_ops(self.operators@, ov, i2).0 is Some,
            decreases n - i,
        {
            if levels[i].atoms.len() == 0 && levels[i].proposer.is_none() {
                return Err(PlanError::NoProposer(i));
            }
            i = i + 1;
        }
        let n_atoms = self.atoms.len();
        let plan = QueryPlan { atoms, levels };
        proof {
            if self.outputs_not_inputs() {
                self.lemma_plan_wf(ov, plan);
            }
        }
        Ok(plan)
    }

    pub open spec fn atoms_and_ops_ok_before(&self, ov: Seq<Var::V>, k: int) -> bool {
        &&& ov.no_duplicates()
        &&& forall|a: int| 0 <= a < self.atoms@.len() ==> all_in(atom_views(#[trigger] self.atoms@[a]), ov)
        &&& 0 <= k <= self.operators@.len()
        &&& forall|k2: int| 0 <= k2 < k ==> op_ok(#[trigger] self.operators@[k2], ov)
    }
}

pub(crate) proof fn lemma_seq_max_in(s: Seq<usize>)
    requires
        s.len() > 0,
    ensures
        exists|j: int| 0 <= j < s.len() && s[j] == seq_max(s),
        forall|j: int| 0 <= j < s.len() ==> s[j] <= seq_max(s),
    decreases s.len(),
{
    if s.len() > 1 {
        lemma_seq_max_in(s.drop_last());
        let j = choose|j: int| 0 <= j < s.len() - 1 && s.drop_last()[j] == seq_max(s.drop_last());
        assert(s[j] == s.drop_last()[j]);
        if seq_max(s) == s.last() {
            assert(s[s.len() - 1] == seq_max(s));
        }
        assert forall|j2: int| 0 <= j2 < s.len() implies s[j2] <= seq_max(s) by {
            if j2 < s.len() - 1 {
                assert(s[j2] == s.drop_last()[j2]);
            }
        }
    } else {
        assert(s.drop_last().len() == 0);
        reveal_with_fuel(seq_max, 2);
        assert(s[0] == seq_max(s));
    }
}

// ---------- WELL-FORMEDNESS OF PLANS ----------

pub(crate) proof fn lemma_levels_of_count<Op>(levels: Seq<Level<Op>>, a: int)
    ensures
        levels_of(levels, a).len() == count_below(
            levels.len() as int,
            |i: int| levels[i].atoms@.contains(a as usize),
        ),
        forall|j: int| 0 <= j < levels_of(levels, a).len() ==> 0 <= #[trigger] levels_of(levels, a)[j] < levels.len()
            && levels[levels_of(levels, a)[j]].atoms@.contains(a as usize),
        forall|j1: int, j2: int| 0 <= j1 < j2 < levels_of(levels, a).len() ==> #[trigger] levels_of(levels, a)[j1] < #[trigger] levels_of(levels, a)[j2],
    decreases levels.len(),
{
    if levels.len() > 0 {
        let init = levels.drop_last();
        lemma_levels_of_count(init, a);
        lemma_count_ext(
            init.len() as int,
            |i: int| init[i].atoms@.contains(a as usize),
            |i: int| levels[i].atoms@.contains(a as usize),
        );
        let r = levels_of(init, a);
        assert forall|j: int| 0 <= j < r.len() implies levels[r[j]] == init[r[j]] by {}
    }
}

pub(crate) proof fn lemma_atoms_with<Rel, Var: View>(atoms: Seq<Atom<Rel, Var>>, x: Var::V)
    requires
        atoms.len() <= usize::MAX,
    ensures
        forall|a: int| 0 <= a < atoms.len() ==> (atoms_with(atoms, x).contains(a as usize)
            <==> atom_views(#[trigger] atoms[a]).contains(x)),
        forall|j: int| 0 <= j < atoms_with(atoms, x).len() ==> #[trigger] atoms_with(atoms, x)[j] < atoms.len(),
        forall|j1: int, j2: int|
            0 <= j1 < j2 < atoms_with(atoms, x).len() ==> #[trigger] atoms_with(atoms, x)[j1] < #[trigger] atoms_with(atoms, x)[j2],
    decreases atoms.len(),
{
    if atoms.len() > 0 {
        let init = atoms.drop_last();
        let last = atoms.len() - 1;
        lemma_atoms_with(init, x);
        let r = atoms_with(init, x);
        let s = atoms_with(atoms, x);
        assert forall|j: int| 0 <= j < r.len() implies r[j] < last by {}
        if atom_views(atoms.last()).contains(x) {
            assert(s == r.push(last as usize));
            assert forall|j: int| 0 <= j < s.len() implies #[trigger] s[j] < atoms.len() by {
                if j < r.len() {
                    assert(s[j] == r[j]);
                }
            }
            assert forall|j1: int, j2: int| 0 <= j1 < j2 < s.len() implies #[trigger] s[j1] < #[trigger] s[j2] by {
                assert(s[j1] == r[j1]);
                if j2 < r.len() {
                    assert(s[j2] == r[j2]);
                }
            }
        } else {
            assert(s == r);
        }
        assert forall|a: int| 0 <= a < atoms.len() implies (s.contains(a as usize)
            <==> atom_views(#[trigger] atoms[a]).contains(x)) by {
            if a < last {
                assert(atoms[a] == init[a]);
                if s.contains(a as usize) {
                    let j = choose|j: int| 0 <= j < s.len() && s[j] == a as usize;
                    if j < r.len() {
                        assert(r[j] == a as usize);
                        assert(r.contains(a as usize));
                    }
                }
                if r.contains(a as usize) {
                    let j = choose|j: int| 0 <= j < r.len() && r[j] == a as usize;
                    assert(s[j] == a as usize);
                }
            } else {
                assert(atoms[a] == atoms.last());
                if atom_views(atoms.last()).contains(x) {
                    assert(s[r.len() as int] == a as usize);
                } else if s.contains(a as usize) {
                    let j = choose|j: int| 0 <= j < s.len() && s[j] == a as usize;
                    assert(r[j] < last);
                }
            }
        }
    }
}

/// The proposer and filters of a level are operators of that level.
pub(crate) proof fn lemma_level_ops<Op: Operator, Var: View>(ops: Seq<Atom<Op, Var>>, ov: Seq<Var::V>, i: int)
    ensures
        level_ops(ops, ov, i).0 matches Some(k) ==> 0 <= k < ops.len() && op_level(ops[k], ov) == i
            && op_proposes(ops[k], ov),
        forall|j: int| 0 <= j < level_ops(ops, ov, i).1.len() ==> {
            let k = #[trigger] level_ops(ops, ov, i).1[j];
            0 <= k < ops.len() && op_level(ops[k], ov) == i
        },
    decreases ops.len(),
{
    if ops.len() > 0 {
        let init = ops.drop_last();
        lemma_level_ops(init, ov, i);
        let (pr, fl) = level_ops(init, ov, i);
        if let Some(k) = pr {
            assert(ops[k] == init[k]);
        }
        assert forall|j: int| 0 <= j < fl.len() implies ops[fl[j]] == init[fl[j]] by {
            let k = fl[j];
            assert(0 <= k < init.len());
        }
    }
}

/// The number of distinct variables of an atom equals both its number of first
/// occurrences and the number of order positions holding one of its variables.
pub(crate) proof fn lemma_distinct_count<K>(av: Seq<K>, ov: Seq<K>)
    requires
        ov.no_duplicates(),
        all_in(av, ov),
    ensures
        count_below(av.len() as int, |c: int| is_first(av, c)) == count_below(
            ov.len() as int,
            |i: int| av.contains(ov[i]),
        ),
{
    let t = av.to_set();
    let p1 = |c: int| is_first(av, c);
    let f1 = |c: int| av[c];
    assert forall|b: K| #[trigger] t.contains(b) implies exists|c: int|
        0 <= c < av.len() && p1(c) && #[trigger] f1(c) == b by {
        lemma_first_index(av, b);
        let c = first_index(av, b);
        assert(p1(c) && f1(c) == b);
    }
    assert forall|c1: int, c2: int|
        0 <= c1 < av.len() && 0 <= c2 < av.len() && p1(c1) && p1(c2) && #[trigger] f1(c1) == #[trigger] f1(c2) implies c1 == c2 by {}
    assert forall|c: int| 0 <= c < av.len() && p1(c) implies t.contains(#[trigger] f1(c)) by {}
    lemma_count_bijection(av.len() as int, p1, f1, t);
    let p2 = |i: int| av.contains(ov[i]);
    let f2 = |i: int| ov[i];
    assert forall|b: K| #[trigger] t.contains(b) implies exists|i: int|
        0 <= i < ov.len() && p2(i) && #[trigger] f2(i) == b by {
        let c = choose|c: int| 0 <= c < av.len() && av[c] == b;
        assert(ov.contains(av[c]));
        let i = choose|i: int| 0 <= i < ov.len() && ov[i] == av[c];
        assert(p2(i) && f2(i) == b);
    }
    assert forall|i1: int, i2: int|
        0 <= i1 < ov.len() && 0 <= i2 < ov.len() && p2(i1) && p2(i2) && #[trigger] f2(i1) == #[trigger] f2(i2) implies i1 == i2 by {}
    assert forall|i: int| 0 <= i < ov.len() && p2(i) implies t.contains(#[trigger] f2(i)) by {}
    lemma_count_bijection(ov.len() as int, p2, f2, t);
}

impl<Var: Ident, Rel: Ident, Op: Operator> Query<Var, Rel, Op> {
    /// A plan of a plannable query whose operators do not read their own outputs is
    /// well-formed.
    pub(crate) proof fn lemma_plan_wf(&self, ov: Seq<Var::V>, p: QueryPlan<Rel, &Op>)
        requires
            self.plannable(ov),
            self.is_plan(ov, p),
            self.outputs_not_inputs(),
            self.atoms@.len() <= usize::MAX,
            ov.len() <= usize::MAX,
            forall|a: int| 0 <= a < self.atoms@.len() ==> shape_valid(shape_spec(atom_views(#[trigger] self.atoms@[a]), ov)),
        ensures
            p.wf(),
    {
        let n_atoms = self.atoms@.len() as int;
        assert forall|a: int| 0 <= a < p.atoms@.len() implies shape_valid((#[trigger] p.atoms@[a]).1@) && n_levels(
            p.atoms@[a].1@,
        ) == levels_of(p.levels@, a).len() by {
            let av = atom_views(self.atoms@[a]);
            lemma_shape_spec_levels(av, ov);
            lemma_levels_of_count(p.levels@, a);
            lemma_distinct_count(av, ov);
            assert forall|i: int| 0 <= i < ov.len() implies p.levels@[i].atoms@.contains(a as usize) == av.contains(ov[i]) by {
                lemma_atoms_with(self.atoms@, ov[i]);
            }
            lemma_count_ext(
                ov.len() as int,
                |i: int| p.levels@[i].atoms@.contains(a as usize),
                |i: int| av.contains(ov[i]),
            );
        }
        assert forall|i: int| 0 <= i < p.levels@.len() implies level_wf(#[trigger] p.levels@[i], i, n_atoms) by {
            let level = p.levels@[i];
            lemma_atoms_with(self.atoms@, ov[i]);
            lemma_level_ops(self.operators@, ov, i);
            assert(level.atoms@ == atoms_with(self.atoms@, ov[i]));
            let (pr, fl) = level_ops(self.operators@, ov, i);
            if let Some(k) = pr {
                let op = self.operators@[k];
                let prop = level.proposer->0;
                let v = atom_views(op);
                let pos = positions(v, ov);
                let ins = op.pred.spec_input_arity() as int;
                assert(op_ok(op, ov));
                lemma_seq_max_in(pos);
                assert(self.operators@[k].pred.spec_has_output());
                assert(v.len() == ins + 1);
                assert(prop.vars@ == pos);
                assert(pos[ins] == i);
                assert forall|j: int| 0 <= j < prop.vars@.len() - 1 implies #[trigger] prop.vars@[j] < i by {
                    assert(v[j] != v[ins]);
                    assert(pos[j] <= i);
                    assert(all_in(v, ov));
                    assert(ov.contains(v[j]));
                    assert(ov.contains(v[ins]));
                    lemma_first_index(ov, v[j]);
                    lemma_first_index(ov, v[ins]);
                    assert(pos[j] == first_index(ov, v[j]) as usize);
                    assert(pos[ins] == first_index(ov, v[ins]) as usize);
                    if pos[j] == i {
                        assert(first_index(ov, v[j]) == first_index(ov, v[ins]));
                    }
                    assert(ov.contains(v[j]) && ov.contains(v[ins]));
                    lemma_first_index(ov, v[j]);
                    lemma_first_index(ov, v[ins]);
                }
            }
            assert forall|f: int| 0 <= f < level.filters@.len() implies filter_wf(#[trigger] level.filters@[f], i) by {
                let k = fl[f];
                let op = self.operators@[k];
                assert(op_ok(op, ov));
                lemma_seq_max_in(positions(atom_views(op), ov));
            }
        }
    }
}

// ---------- INDEXES ----------

/// The built trie indexes, one per distinct (relation, shape) pair, so that atoms that
/// need the same index share it. A `None` index is empty.
pub type Indexes<Rel> = Vec<((Rel, IndexShape), Option<Trie>)>;

/// The entry `e` is the index of relation (view) `r` with shape `sh`.
pub open spec fn is_key<Rel: View>(e: ((Rel, IndexShape), Option<Trie>), r: Rel::V, sh: Seq<IndexColumnShape>) -> bool {
    e.0.0@ == r && e.0.1@ == sh
}

/// No two entries have the same key.
pub open spec fn keys_distinct<Rel: View>(ix: Seq<((Rel, IndexShape), Option<Trie>)>) -> bool {
    forall|j1: int, j2: int|
        0 <= j1 < ix.len() && 0 <= j2 < ix.len() && j1 != j2 ==> !is_key(#[trigger] ix[j1], (#[trigger] ix[j2]).0.0@, ix[j2].0.1@)
}

/// No two entries have the same key, every shape is valid, and every trie has one level per
/// trie level of its shape.
pub open spec fn indexes_wf<Rel: View>(ix: Seq<((Rel, IndexShape), Option<Trie>)>) -> bool {
    &&& forall|j1: int, j2: int|
        0 <= j1 < ix.len() && 0 <= j2 < ix.len() && j1 != j2 ==> !is_key(#[trigger] ix[j1], (#[trigger] ix[j2]).0.0@, ix[j2].0.1@)
    &&& forall|j: int|
        0 <= j < ix.len() ==> shape_valid((#[trigger] ix[j]).0.1@) && (ix[j].1 matches Some(t) ==> trie_wf(
            t,
            n_levels(ix[j].0.1@),
        ))
}

/// The index with key (`r`, `sh`), if there is one.
pub open spec fn index_for<Rel: View>(ix: Seq<((Rel, IndexShape), Option<Trie>)>, r: Rel::V, sh: Seq<IndexColumnShape>) -> Option<Option<Trie>>
    decreases ix.len(),
{
    if ix.len() == 0 {
        None
    } else if is_key(ix.last(), r, sh) {
        Some(ix.last().1)
    } else {
        index_for(ix.drop_last(), r, sh)
    }
}

pub(crate) proof fn lemma_index_for<Rel: View>(ix: Seq<((Rel, IndexShape), Option<Trie>)>, r: Rel::V, sh: Seq<IndexColumnShape>)
    requires
        forall|j1: int, j2: int|
            0 <= j1 < ix.len() && 0 <= j2 < ix.len() && j1 != j2 ==> !is_key(#[trigger] ix[j1], (#[trigger] ix[j2]).0.0@, ix[j2].0.1@),
    ensures
        index_for(ix, r, sh) is None <==> forall|j: int| 0 <= j < ix.len() ==> !is_key(#[trigger] ix[j], r, sh),
        forall|j: int| 0 <= j < ix.len() && is_key(#[trigger] ix[j], r, sh) ==> index_for(ix, r, sh) == Some(ix[j].1),
    decreases ix.len(),
{
    if ix.len() > 0 {
        let init = ix.drop_last();
        assert forall|j1: int, j2: int|
            0 <= j1 < init.len() && 0 <= j2 < init.len() && j1 != j2 implies !is_key(#[trigger] init[j1], (#[trigger] init[j2]).0.0@, init[j2].0.1@) by {
            assert(init[j1] == ix[j1] && init[j2] == ix[j2]);
        }
        lemma_index_for(init, r, sh);
        assert forall|j: int| 0 <= j < init.len() implies init[j] == ix[j] by {}
    }
}

/// The shapes' tuple of an entry equals another's key, compared by view.
fn shape_eq(a: &IndexShape, b: &IndexShape) -> (r: bool)
    ensures
        r == (a@ == b@),
{
    if a.len() != b.len() {
        return false;
    }
    let mut j: usize = 0;
    while j < a.len()
        invariant
            j <= a@.len(),
            a@.len() == b@.len(),
            forall|j2: int| 0 <= j2 < j ==> a@[j2] == b@[j2],
        decreases a@.len() - j,
    {
        if a[j] != b[j] {
            return false;
        }
        j = j + 1;
    }
    assert(a@ =~= b@);
    true
}

/// Finds the entry with the given key.
fn find_index<Rel: Ident>(ix: &Indexes<Rel>, rel: &Rel, shape: &IndexShape) -> (r: Option<usize>)
    ensures
        match r {
            Some(j) => j < ix@.len() && is_key(ix@[j as int], rel@, shape@),
            None => forall|j: int| 0 <= j < ix@.len() ==> !is_key(#[trigger] ix@[j], rel@, shape@),
        },
{
    let mut j: usize = 0;
    while j < ix.len()
        invariant
            j <= ix@.len(),
            forall|j2: int| 0 <= j2 < j ==> !is_key(#[trigger] ix@[j2], rel@, shape@),
        decreases ix@.len() - j,
    {
        let e = &ix[j];
        if e.0.0.same(rel) && shape_eq(&e.0.1, shape) {
            return Some(j);
        }
        j = j + 1;
    }
    None
}

impl<Rel: Ident, Op> QueryPlan<Rel, Op> {
    /// Every atom's index can be built from the database.
    pub open spec fn buildable<Db: Database<Rel = Rel>>(&self, db: &Db) -> bool {
        forall|a: int|
            0 <= a < self.atoms@.len() ==> {
                let (r, sh) = #[trigger] self.atoms@[a];
                shape_valid(sh@) && db.has_rel(r@) && db.rel_arity(r@) == sh@.len()
            }
    }

    /// Some atom of the plan needs the index `e`.
    pub open spec fn needs_index(&self, e: ((Rel, IndexShape), Option<Trie>)) -> bool {
        exists|a: int| 0 <= a < self.atoms@.len() && is_key(e, (#[trigger] self.atoms@[a]).0@, self.atoms@[a].1@)
    }

    /// Builds the index of every atom, once per distinct (relation, shape) pair.
    pub fn build_indexes<Db: Database<Rel = Rel>>(&self, db: &Db) -> (ix: Indexes<Rel>)
        requires
            self.buildable(db),
        ensures
            indexes_wf(ix@),
            forall|j: int| 0 <= j < ix@.len() ==> indexes_rows((#[trigger] ix@[j]).1, db.rel_rows(ix@[j].0.0@), ix@[j].0.1@),
            forall|a: int| 0 <= a < self.atoms@.len() ==> index_for(ix@, (#[trigger] self.atoms@[a]).0@, self.atoms@[a].1@) is Some,
            forall|j: int| 0 <= j < ix@.len() ==> self.needs_index(#[trigger] ix@[j]),
    {
        let mut ix: Indexes<Rel> = Vec::new();
        let ghost mut wit: Seq<int> = Seq::empty();
        let mut a: usize = 0;
        while a < self.atoms.len()
            invariant
                a <= self.atoms@.len(),
                self.buildable(db),
                indexes_wf(ix@),
                forall|j: int| 0 <= j < ix@.len() ==> indexes_rows((#[trigger] ix@[j]).1, db.rel_rows(ix@[j].0.0@), ix@[j].0.1@),
                forall|a2: int| 0 <= a2 < a ==> exists|j: int| 0 <= j < ix@.len() && is_key(#[trigger] ix@[j], (#[trigger] self.atoms@[a2]).0@, self.atoms@[a2].1@),
                wit.len() == ix@.len(),
                forall|j: int| 0 <= j < ix@.len() ==> 0 <= #[trigger] wit[j] < a && is_key(ix@[j], self.atoms@[wit[j]].0@, self.atoms@[wit[j]].1@),
            decreases self.atoms@.len() - a,
        {
            let (rel, shape) = &self.atoms[a];
            assert(shape_valid(shape@) && db.has_rel(rel@) && db.rel_arity(rel@) == shape@.len()) by {
                assert(self.atoms@[a as int] == (*rel, *shape));
            }
            let ghost old_ix = ix@;
            if find_index(&ix, rel, shape).is_none() {
                let t = Trie::build(db, *rel, shape);
                let sh = shape.clone();
                assert(sh@ == shape@);
                ix.push(((*rel, sh), t));
                proof {
                    let old_wit = wit;
                    wit = wit.push(a as int);
                    let last = ix@.len() - 1;
                    assert(is_key(ix@[last], rel@, shape@));
                    assert forall|j: int| 0 <= j < old_ix.len() implies ix@[j] == old_ix[j] by {}
                    assert forall|a2: int| 0 <= a2 < a + 1 implies exists|j: int| 0 <= j < ix@.len() && is_key(#[trigger] ix@[j], (#[trigger] self.atoms@[a2]).0@, self.atoms@[a2].1@) by {
                        if a2 < a {
                            let j = choose|j: int| 0 <= j < old_ix.len() && is_key(#[trigger] old_ix[j], self.atoms@[a2].0@, self.atoms@[a2].1@);
                            assert(ix@[j] == old_ix[j]);
                        } else {
                            assert(self.atoms@[a2] == (*rel, *shape));
                            assert(is_key(ix@[last], self.atoms@[a2].0@, self.atoms@[a2].1@));
                        }
                    }
                    assert forall|j: int| 0 <= j < ix@.len() implies 0 <= #[trigger] wit[j] < a + 1 && is_key(ix@[j], self.atoms@[wit[j]].0@, self.atoms@[wit[j]].1@) by {
                        if j < last {
                            assert(ix@[j] == old_ix[j]);
                            assert(wit[j] == old_wit[j]);
                        } else {
                            assert(self.atoms@[a as int] == (*rel, *shape));
                        }
                    }
                }
            } else {
                proof {
                    assert(self.atoms@[a as int] == (*rel, *shape));
                }
            }
            a = a + 1;
        }
        proof {
            assert forall|a2: int| 0 <= a2 < self.atoms@.len() implies index_for(ix@, (#[trigger] self.atoms@[a2]).0@, self.atoms@[a2].1@) is Some by {
                lemma_index_for(ix@, self.atoms@[a2].0@, self.atoms@[a2].1@);
                let j = choose|j: int| 0 <= j < ix@.len() && is_key(#[trigger] ix@[j], self.atoms@[a2].0@, self.atoms@[a2].1@);
            }
            assert forall|j: int| 0 <= j < ix@.len() implies self.needs_index(#[trigger] ix@[j]) by {
                let a2 = wit[j];
                assert(0 <= a2 < self.atoms@.len() && is_key(ix@[j], self.atoms@[a2].0@, self.atoms@[a2].1@));
            }
        }
        ix
    }
}

impl<Rel: Ident, Op: Operator> QueryPlan<Rel, Op> {
    /// Binds the built indexes to the plan for execution. Returns `None` if some atom's
    /// index is empty: a join is a conjunction, so then the whole query is empty.
    pub fn bind<'a>(&'a self, indexes: &'a Indexes<Rel>) -> (r: Option<ExecutableQuery<'a, Op>>)
        requires
            keys_distinct(indexes@),
            forall|a: int|
                0 <= a < self.atoms@.len() ==> index_for(indexes@, (#[trigger] self.atoms@[a]).0@, self.atoms@[a].1@) is Some,
        ensures
            r is None <==> exists|a: int|
                0 <= a < self.atoms@.len() && index_for(indexes@, (#[trigger] self.atoms@[a]).0@, self.atoms@[a].1@) == Some(
                    None::<Trie>,
                ),
            r matches Some(e) ==> {
                &&& e.levels@ == self.levels@
                &&& e.tries@.len() == self.atoms@.len()
                &&& forall|a: int|
                    0 <= a < self.atoms@.len() ==> index_for(indexes@, (#[trigger] self.atoms@[a]).0@, self.atoms@[a].1@)
                        == Some(Some(*e.tries@[a]))
                &&& self.wf() && indexes_wf(indexes@) ==> e.wf()
            },
    {
        let mut tries: Vec<&'a Trie> = Vec::new();
        let mut a: usize = 0;
        while a < self.atoms.len()
            invariant
                a <= self.atoms@.len(),
                keys_distinct(indexes@),
                forall|a2: int|
                    0 <= a2 < self.atoms@.len() ==> index_for(indexes@, (#[trigger] self.atoms@[a2]).0@, self.atoms@[a2].1@) is Some,
                tries@.len() == a,
                forall|a2: int|
                    0 <= a2 < a ==> index_for(indexes@, (#[trigger] self.atoms@[a2]).0@, self.atoms@[a2].1@)
                        == Some(Some(*tries@[a2])),
            decreases self.atoms@.len() - a,
        {
            let key = &self.atoms[a];
            proof {
                lemma_index_for(indexes@, key.0@, key.1@);
            }
            let j = find_index(indexes, &key.0, &key.1);
            match j {
                Some(j) => {
                    match &indexes[j].1 {
                        Some(trie) => tries.push(trie),
                        None => {
                            assert(index_for(indexes@, self.atoms@[a as int].0@, self.atoms@[a as int].1@) == Some(None::<Trie>));
                            return None;
                        },
                    }
                },
                None => {
                    assert(index_for(indexes@, self.atoms@[a as int].0@, self.atoms@[a as int].1@) is Some);
                    return None;
                },
            }
            a = a + 1;
        }
        let e = ExecutableQuery { tries, levels: self.levels.as_slice() };
        proof {
            if self.wf() && indexes_wf(indexes@) {
                assert forall|a2: int| 0 <= a2 < e.tries@.len() implies trie_wf(*#[trigger] e.tries@[a2], levels_of(e.levels@, a2).len()) by {
                    let key = self.atoms@[a2];
                    lemma_index_for(indexes@, key.0@, key.1@);
                    let j = choose|j: int| 0 <= j < indexes@.len() && is_key(#[trigger] indexes@[j], key.0@, key.1@);
                    assert(index_for(indexes@, key.0@, key.1@) == Some(indexes@[j].1));
                }
            }
        }
        Some(e)
    }
}

// ---------- QUERY EXECUTION ----------

/// A query plan bound to its trie indexes: one trie per atom (atoms that share an index
/// share a trie) and one level per variable.
pub struct ExecutableQuery<'a, Op> {
    pub tries: Vec<&'a Trie>,
    pub levels: &'a [Level<Op>],
}

/// The values of `s` at the positions `ps`.
pub open spec fn gather(s: Seq<Value>, ps: Seq<usize>) -> Seq<Value> {
    ps.map_values(|p: usize| s[p as int])
}

/// The values of `s` at the levels `idx`.
pub open spec fn project(s: Seq<Value>, idx: Seq<int>) -> Seq<Value> {
    idx.map_values(|i: int| s[i])
}

/// The binding `s` satisfies the operators of level `i`: the proposer, if any, computes
/// `s[i]` from its inputs, and every filter accepts its variables.
pub open spec fn level_ok<Op: Operator>(level: Level<Op>, s: Seq<Value>, i: int) -> bool {
    &&& (level.proposer matches Some(p) ==> p.pred.spec_compute(gather(s, p.vars@.drop_last())) == Some(s[i]))
    &&& forall|f: int| 0 <= f < level.filters@.len() ==> (#[trigger] level.filters@[f]).pred.spec_check(gather(s, level.filters@[f].vars@))
}

/// `s` binds every level, each trie holds the values of `s` at the levels of its atom, and
/// every level's operators are satisfied.
pub open spec fn is_solution<Op: Operator>(roots: Seq<Trie>, levels: Seq<Level<Op>>, s: Seq<Value>) -> bool {
    &&& s.len() == levels.len()
    &&& forall|a: int| 0 <= a < roots.len() ==> trie_has(#[trigger] roots[a], project(s, levels_of(levels, a)))
    &&& forall|i: int| 0 <= i < levels.len() ==> level_ok(#[trigger] levels[i], s, i)
}

/// The subtrie reached from `t` by following `path`, if `t` has that path.
pub open spec fn subtrie(t: Trie, path: Seq<Value>) -> Option<Trie>
    decreases path.len(),
{
    if path.len() == 0 {
        Some(t)
    } else {
        match t {
            Trie::Leaf => None,
            Trie::Node(m) => if m@.contains_key(path[0]) {
                subtrie(m@[path[0]], path.drop_first())
            } else {
                None
            },
        }
    }
}

/// The prefix `p` binds the first `p.len()` levels consistently with every trie and with
/// the operators of those levels.
pub open spec fn viable<Op: Operator>(roots: Seq<Trie>, levels: Seq<Level<Op>>, p: Seq<Value>) -> bool {
    &&& p.len() <= levels.len()
    &&& forall|a: int|
        0 <= a < roots.len() ==> subtrie(#[trigger] roots[a], project(p, levels_of(levels.take(p.len() as int), a))) is Some
    &&& forall|i: int| 0 <= i < p.len() ==> level_ok(#[trigger] levels[i], p, i)
}

/// The solutions extending the prefix `p`.
pub open spec fn extensions<Op: Operator>(roots: Seq<Trie>, levels: Seq<Level<Op>>, p: Seq<Value>) -> Set<Seq<Value>> {
    Set::new(|s: Seq<Value>| is_solution(roots, levels, s) && s.take(p.len() as int) == p)
}

impl<'a, Op: Operator> ExecutableQuery<'a, Op> {
    pub open spec fn roots(&self) -> Seq<Trie> {
        self.tries@.map_values(|t: &Trie| *t)
    }

    /// The levels can be executed over the tries, and every trie holds tuples with one
    /// value per level of its atom.
    pub open spec fn wf(&self) -> bool {
        &&& levels_wf(self.levels@, self.tries@.len() as int)
        &&& forall|a: int|
            0 <= a < self.tries@.len() ==> trie_wf(*#[trigger] self.tries@[a], levels_of(self.levels@, a).len())
    }

    /// The query's results: the bindings of all levels that satisfy every atom and operator.
    pub open spec fn solutions(&self) -> Set<Seq<Value>> {
        Set::new(|s: Seq<Value>| is_solution(self.roots(), self.levels@, s))
    }
}

// ----- Facts about tries and levels used by the executors -----

pub(crate) proof fn lemma_subtrie_push(t: Trie, q: Seq<Value>, k: Value)
    ensures
        subtrie(t, q.push(k)) == match subtrie(t, q) {
            Some(Trie::Node(m)) => if m@.contains_key(k) { Some(m@[k]) } else { None },
            _ => None,
        },
    decreases q.len(),
{
    if q.len() == 0 {
        assert(q.push(k).drop_first() =~= Seq::<Value>::empty());
        match t {
            Trie::Leaf => {},
            Trie::Node(m) => {
                let u = m@[k];
                assert(subtrie(u, Seq::<Value>::empty()) == Some(u));
            },
        }
    } else {
        assert(q.push(k).drop_first() =~= q.drop_first().push(k));
        assert(q.push(k)[0] == q[0]);
        match t {
            Trie::Leaf => {},
            Trie::Node(m) => {
                if m@.contains_key(q[0]) {
                    lemma_subtrie_push(m@[q[0]], q.drop_first(), k);
                }
            },
        }
    }
}

pub(crate) proof fn lemma_subtrie_wf(t: Trie, d: nat, q: Seq<Value>)
    requires
        trie_wf(t, d),
        subtrie(t, q) is Some,
    ensures
        q.len() <= d,
        trie_wf(subtrie(t, q)->0, (d - q.len()) as nat),
        trie_has(t, q) <==> q.len() == d,
    decreases q.len(),
{
    if q.len() > 0 {
        match t {
            Trie::Leaf => {},
            Trie::Node(m) => {
                lemma_wf_node(m, d);
                lemma_has_node(m, q);
                lemma_subtrie_wf(m@[q[0]], (d - 1) as nat, q.drop_first());
            },
        }
    } else {
        if d > 0 {
            lemma_wf_pos(t, d);
        }
    }
}

proof fn lemma_trie_has_subtrie(t: Trie, q: Seq<Value>)
    ensures
        trie_has(t, q) ==> subtrie(t, q) is Some,
    decreases q.len(),
{
    if q.len() > 0 {
        match t {
            Trie::Leaf => {},
            Trie::Node(m) => {
                lemma_has_node(m, q);
                lemma_trie_has_subtrie(m@[q[0]], q.drop_first());
            },
        }
    }
}

pub(crate) proof fn lemma_levels_of_take<Op>(levels: Seq<Level<Op>>, a: int, i: int)
    requires
        0 <= i < levels.len(),
    ensures
        levels_of(levels.take(i + 1), a) == if levels[i].atoms@.contains(a as usize) {
            levels_of(levels.take(i), a).push(i)
        } else {
            levels_of(levels.take(i), a)
        },
{
    assert(levels.take(i + 1).drop_last() =~= levels.take(i));
}

pub(crate) proof fn lemma_levels_of_prefix<Op>(levels: Seq<Level<Op>>, a: int, i: int)
    requires
        0 <= i <= levels.len(),
    ensures
        levels_of(levels.take(i), a).len() <= levels_of(levels, a).len(),
        forall|j: int| 0 <= j < levels_of(levels.take(i), a).len() ==> #[trigger] levels_of(levels.take(i), a)[j] == levels_of(levels, a)[j],
        forall|j: int| 0 <= j < levels_of(levels.take(i), a).len() ==> #[trigger] levels_of(levels.take(i), a)[j] < i,
        forall|j: int| levels_of(levels.take(i), a).len() <= j < levels_of(levels, a).len() ==> #[trigger] levels_of(levels, a)[j] >= i,
    decreases levels.len() - i,
{
    lemma_levels_of_count(levels.take(i), a);
    if i < levels.len() {
        lemma_levels_of_prefix(levels, a, i + 1);
        lemma_levels_of_take(levels, a, i);
        let li = levels_of(levels.take(i), a);
        let li1 = levels_of(levels.take(i + 1), a);
        let l = levels_of(levels, a);
        assert forall|j: int| 0 <= j < li.len() implies #[trigger] li[j] == l[j] by {
            assert(li[j] == li1[j]);
        }
        assert forall|j: int| li.len() <= j < l.len() implies #[trigger] l[j] >= i by {
            if j < li1.len() {
                assert(li1[j] == l[j]);
            }
        }
    } else {
        assert(levels.take(i) =~= levels);
    }
}

/// The levels can be executed over the tries `roots`, whose depths match their atoms.
pub open spec fn exec_wf<Op: Operator>(roots: Seq<Trie>, levels: Seq<Level<Op>>) -> bool {
    &&& roots.len() <= usize::MAX
    &&& levels_wf(levels, roots.len() as int)
    &&& forall|a: int| 0 <= a < roots.len() ==> trie_wf(#[trigger] roots[a], levels_of(levels, a).len())
}

/// A level's operators read only the variables up to the level's own.
pub(crate) proof fn lemma_level_ok_local<Op: Operator>(level: Level<Op>, i: int, n_atoms: int, s1: Seq<Value>, s2: Seq<Value>)
    requires
        level_wf(level, i, n_atoms),
        0 <= i < s1.len(),
        0 <= i < s2.len(),
        forall|j: int| 0 <= j <= i ==> s1[j] == s2[j],
    ensures
        level_ok(level, s1, i) == level_ok(level, s2, i),
{
    if let Some(p) = level.proposer {
        assert(gather(s1, p.vars@.drop_last()) =~= gather(s2, p.vars@.drop_last())) by {
            assert forall|j: int| 0 <= j < p.vars@.len() - 1 implies p.vars@.drop_last()[j] == p.vars@[j] by {}
        }
    }
    assert forall|f: int| 0 <= f < level.filters@.len() implies gather(s1, (#[trigger] level.filters@[f]).vars@) =~= gather(s2, level.filters@[f].vars@) by {
        assert(filter_wf(level.filters@[f], i));
    }
}

pub(crate) proof fn lemma_subtrie_prefix(t: Trie, q: Seq<Value>, m: int)
    requires
        subtrie(t, q) is Some,
        0 <= m <= q.len(),
    ensures
        subtrie(t, q.take(m)) is Some,
    decreases q.len(),
{
    if m > 0 {
        match t {
            Trie::Leaf => {},
            Trie::Node(mp) => {
                assert(q.take(m)[0] == q[0]);
                assert(q.take(m).drop_first() =~= q.drop_first().take(m - 1));
                lemma_subtrie_prefix(mp@[q[0]], q.drop_first(), m - 1);
            },
        }
    } else {
        assert(q.take(0) =~= Seq::<Value>::empty());
    }
}

/// Every prefix of a solution is viable.
proof fn lemma_solution_prefix<Op: Operator>(roots: Seq<Trie>, levels: Seq<Level<Op>>, s: Seq<Value>, j: int)
    requires
        exec_wf(roots, levels),
        is_solution(roots, levels, s),
        0 <= j <= s.len(),
    ensures
        viable(roots, levels, s.take(j)),
{
    let p = s.take(j);
    assert forall|a: int| 0 <= a < roots.len() implies subtrie(#[trigger] roots[a], project(p, levels_of(levels.take(j), a))) is Some by {
        let l = levels_of(levels, a);
        let lj = levels_of(levels.take(j), a);
        lemma_levels_of_prefix(levels, a, j);
        lemma_levels_of_count(levels, a);
        lemma_trie_has_subtrie(roots[a], project(s, l));
        lemma_subtrie_prefix(roots[a], project(s, l), lj.len() as int);
        assert(project(s, l).take(lj.len() as int) =~= project(p, lj));
    }
    assert forall|i: int| 0 <= i < p.len() implies level_ok(#[trigger] levels[i], p, i) by {
        lemma_level_ok_local(levels[i], i, roots.len() as int, s, p);
    }
}

/// A viable binding of every level is a solution, and conversely.
pub(crate) proof fn lemma_viable_full<Op: Operator>(roots: Seq<Trie>, levels: Seq<Level<Op>>, s: Seq<Value>)
    requires
        exec_wf(roots, levels),
        s.len() == levels.len(),
    ensures
        viable(roots, levels, s) == is_solution(roots, levels, s),
{
    assert(levels.take(s.len() as int) =~= levels);
    if viable(roots, levels, s) {
        assert forall|a: int| 0 <= a < roots.len() implies trie_has(#[trigger] roots[a], project(s, levels_of(levels, a))) by {
            lemma_subtrie_wf(roots[a], levels_of(levels, a).len(), project(s, levels_of(levels, a)));
        }
    }
    if is_solution(roots, levels, s) {
        lemma_solution_prefix(roots, levels, s, s.len() as int);
        assert(s.take(s.len() as int) =~= s);
    }
}

/// The node of atom `a`'s trie reached by the prefix `p`.
pub open spec fn node_at<Op>(roots: Seq<Trie>, levels: Seq<Level<Op>>, a: int, p: Seq<Value>) -> Option<Trie> {
    subtrie(roots[a], project(p, levels_of(levels.take(p.len() as int), a)))
}

/// The node of atom `a` at prefix `p` is an inner node with a child under `k`.
pub open spec fn node_has<Op>(roots: Seq<Trie>, levels: Seq<Level<Op>>, a: int, p: Seq<Value>, k: Value) -> bool {
    node_at(roots, levels, a, p) matches Some(Trie::Node(m)) && m@.contains_key(k)
}

/// Extending a viable prefix by `k` keeps it viable exactly when every trie of the next
/// level has `k` under its current node and the level's operators accept.
pub(crate) proof fn lemma_viable_push<Op: Operator>(roots: Seq<Trie>, levels: Seq<Level<Op>>, p: Seq<Value>, k: Value)
    requires
        exec_wf(roots, levels),
        viable(roots, levels, p),
        p.len() < levels.len(),
    ensures
        viable(roots, levels, p.push(k)) == ((forall|j: int| 0 <= j < levels[p.len() as int].atoms@.len() ==>
            #[trigger] node_has(roots, levels, levels[p.len() as int].atoms@[j] as int, p, k))
            && level_ok(levels[p.len() as int], p.push(k), p.len() as int)),
        forall|a: int| 0 <= a < roots.len() ==> #[trigger] node_at(roots, levels, a, p.push(k)) == if levels[p.len() as int].atoms@.contains(a as usize) {
            match node_at(roots, levels, a, p) {
                Some(Trie::Node(m)) => if m@.contains_key(k) { Some(m@[k]) } else { None },
                _ => None,
            }
        } else {
            node_at(roots, levels, a, p)
        },
{
    let i = p.len() as int;
    let q = p.push(k);
    let level = levels[i];
    assert(level_wf(level, i, roots.len() as int));
    assert forall|a: int| 0 <= a < roots.len() implies #[trigger] node_at(roots, levels, a, q) == if level.atoms@.contains(a as usize) {
            match node_at(roots, levels, a, p) {
                Some(Trie::Node(m)) => if m@.contains_key(k) { Some(m@[k]) } else { None },
                _ => None,
            }
        } else {
            node_at(roots, levels, a, p)
        } by {
        lemma_levels_of_take(levels, a, i);
        lemma_levels_of_count(levels.take(i), a);
        let li = levels_of(levels.take(i), a);
        assert(q.len() == i + 1);
        if level.atoms@.contains(a as usize) {
            assert(project(q, li.push(i)) =~= project(p, li).push(k));
            lemma_subtrie_push(roots[a], project(p, li), k);
        } else {
            assert(project(q, li) =~= project(p, li));
        }
    }
    assert forall|i2: int| 0 <= i2 < i implies level_ok(#[trigger] levels[i2], q, i2) == level_ok(levels[i2], p, i2) by {
        lemma_level_ok_local(levels[i2], i2, roots.len() as int, q, p);
    }
    if viable(roots, levels, q) {
        assert forall|j: int| 0 <= j < level.atoms@.len() implies #[trigger] node_has(roots, levels, level.atoms@[j] as int, p, k) by {
            let a = level.atoms@[j] as int;
            assert(level.atoms@.contains(a as usize));
            assert(node_at(roots, levels, a, q) is Some);
        }
    }
    if (forall|j: int| 0 <= j < level.atoms@.len() ==> #[trigger] node_has(roots, levels, level.atoms@[j] as int, p, k)) && level_ok(level, q, i) {
        assert forall|a: int| 0 <= a < roots.len() implies subtrie(#[trigger] roots[a], project(q, levels_of(levels.take(q.len() as int), a))) is Some by {
            assert(node_at(roots, levels, a, q) == subtrie(roots[a], project(q, levels_of(levels.take(q.len() as int), a))));
            assert(node_at(roots, levels, a, p) is Some);
            if level.atoms@.contains(a as usize) {
                let j = choose|j: int| 0 <= j < level.atoms@.len() && level.atoms@[j] == a as usize;
                assert(level.atoms@[j] as int == a);
                assert(node_has(roots, levels, level.atoms@[j] as int, p, k));
                assert(node_has(roots, levels, a, p, k));
                let m = node_at(roots, levels, a, p)->0->Node_0;
                assert(node_at(roots, levels, a, q) == Some(m@[k]));
            } else {
                assert(node_at(roots, levels, a, q) == node_at(roots, levels, a, p));
            }
        }
    }
}

/// An atom of a level is still active when the level is reached: it has a trie level left.
pub(crate) proof fn lemma_active_in_level<Op>(levels: Seq<Level<Op>>, a: int, i: int)
    requires
        0 <= i < levels.len(),
        levels[i].atoms@.contains(a as usize),
    ensures
        levels_of(levels.take(i), a).len() < levels_of(levels, a).len(),
{
    lemma_levels_of_take(levels, a, i);
    lemma_levels_of_prefix(levels, a, i + 1);
}

/// The solutions extending `p` are those extending `p` by some next value, and any
/// solution extending `q` makes `q` viable.
proof fn lemma_extensions<Op: Operator>(roots: Seq<Trie>, levels: Seq<Level<Op>>, p: Seq<Value>)
    requires
        exec_wf(roots, levels),
    ensures
        p.len() < levels.len() ==> forall|s: Seq<Value>| #[trigger] extensions(roots, levels, p).contains(s)
            ==> extensions(roots, levels, p.push(s[p.len() as int])).contains(s),
        p.len() < levels.len() ==> forall|k: Value, s: Seq<Value>| #[trigger] extensions(roots, levels, p.push(k)).contains(s)
            ==> extensions(roots, levels, p).contains(s) && s[p.len() as int] == k,
        p.len() <= levels.len() && !extensions(roots, levels, p).is_empty() ==> viable(roots, levels, p),
{
    if p.len() < levels.len() {
        assert forall|s: Seq<Value>| #[trigger] extensions(roots, levels, p).contains(s)
            implies extensions(roots, levels, p.push(s[p.len() as int])).contains(s) by {
            assert(s.take(p.len() as int + 1) =~= s.take(p.len() as int).push(s[p.len() as int]));
        }
        assert forall|k: Value, s: Seq<Value>| #[trigger] extensions(roots, levels, p.push(k)).contains(s)
            implies extensions(roots, levels, p).contains(s) && s[p.len() as int] == k by {
            assert(s.take(p.len() as int + 1) == p.push(k));
            assert(p.push(k).drop_last() =~= p);
            assert(s.take(p.len() as int + 1)[p.len() as int] == s[p.len() as int]);
            assert(s.take(p.len() as int) =~= s.take(p.len() as int + 1).drop_last());
        }
    }
    if p.len() <= levels.len() && !extensions(roots, levels, p).is_empty() {
        let s = extensions(roots, levels, p).choose();
        assert(extensions(roots, levels, p).contains(s));
        lemma_solution_prefix(roots, levels, s, p.len() as int);
    }
}

/// Where the rows of a depth-first execution go.
trait RowSink {
    /// What the rows are handed to.
    type Target;

    spec fn target(&self) -> Self::Target;

    /// The rows emitted so far, in order.
    spec fn rows(&self) -> Seq<Seq<Value>>;

    spec fn ready(&self) -> bool;

    fn emit(&mut self, row: &[Value])
        requires
            old(self).ready(),
        ensures
            final(self).ready(),
            final(self).rows() == old(self).rows().push(row@),
            final(self).target() == old(self).target(),
    ;
}

/// Collects the rows into a vector.
struct Collect {
    out: Vec<Vec<Value>>,
}

impl RowSink for Collect {
    type Target = ();

    spec fn target(&self) -> () {
        ()
    }

    spec fn rows(&self) -> Seq<Seq<Value>> {
        self.out@.map_values(|r: Vec<Value>| r@)
    }

    spec fn ready(&self) -> bool {
        true
    }

    fn emit(&mut self, row: &[Value]) {
        let ghost old_rows = self.rows();
        let mut v: Vec<Value> = Vec::new();
        let mut j: usize = 0;
        while j < row.len()
            invariant
                j <= row@.len(),
                v@ == row@.take(j as int),
            decreases row@.len() - j,
        {
            v.push(row[j]);
            j = j + 1;
            assert(v@ =~= row@.take(j as int));
        }
        assert(row@.take(row@.len() as int) =~= row@);
        self.out.push(v);
        assert(self.rows() =~= old_rows.push(row@));
    }
}

/// The callback `f` has been called with (a slice holding) `row`.
pub open spec fn handed_to<F: FnMut(&[Value])>(f: F, row: Seq<Value>) -> bool {
    exists|s: &[Value]| s@ == row && call_ensures(f, (s,), ())
}

/// Hands each row to a callback, and records in a ghost log what it was handed.
struct Callback<F> {
    f: F,
    log: Ghost<Seq<Seq<Value>>>,
}

impl<F: FnMut(&[Value])> RowSink for Callback<F> {
    type Target = F;

    spec fn target(&self) -> F {
        self.f
    }

    spec fn rows(&self) -> Seq<Seq<Value>> {
        self.log@
    }

    /// The callback accepts every row, and has been called with each logged row.
    spec fn ready(&self) -> bool {
        &&& forall|row: &[Value]| call_requires(self.f, (row,))
        &&& forall|i: int| 0 <= i < self.log@.len() ==> handed_to(self.f, #[trigger] self.log@[i])
    }

    fn emit(&mut self, row: &[Value]) {
        let ghost log0 = self.log@;
        (self.f)(row);
        self.log = Ghost(self.log@.push(row@));
        proof {
            assert forall|i: int| 0 <= i < self.log@.len() implies handed_to(self.f, #[trigger] self.log@[i]) by {
                if i < log0.len() {
                    assert(self.log@[i] == log0[i]);
                } else {
                    assert(call_ensures(self.f, (row,), ()));
                    assert(row@ == self.log@[i]);
                }
            }
        }
    }
}

/// The state of a depth-first traversal of the implicit result trie, which has one level
/// per variable in variable order.
struct QueryDfsState<'a, Op, S> {
    sink: S,
    levels: &'a [Level<Op>],
    /// Partial solution: prefix[i] = value of the i-th variable.
    prefix: Vec<Value>,
    /// For each atom, the map of the trie node we are at. (Once an atom's trie bottoms
    /// out, whatever stays here is never read again.)
    tries: Vec<&'a TrieMap>,
    /// Trie node stack: entering a level pushes the current node of each of its tries;
    /// leaving it restores them.
    saved: Vec<&'a TrieMap>,
    /// Scratch buffer for operator inputs.
    input_buf: Vec<Value>,
}

impl<'a, Op: Operator, S: RowSink> QueryDfsState<'a, Op, S> {
    /// The traversal is at a viable prefix, and every atom that still has levels to bind
    /// sits at the node its trie reaches along the prefix.
    spec fn inv(&self, roots: Seq<Trie>) -> bool {
        &&& exec_wf(roots, self.levels@)
        &&& self.tries@.len() == roots.len()
        &&& viable(roots, self.levels@, self.prefix@)
        &&& self.sink.ready()
        &&& forall|a: int|
            0 <= a < roots.len() && levels_of(self.levels@.take(self.prefix@.len() as int), a).len()
                < levels_of(self.levels@, a).len() ==> node_at(roots, self.levels@, a, self.prefix@)
                == Some(Trie::Node(*#[trigger] self.tries@[a]))
    }

    /// Copies the first `count` of the given prefix positions into `input_buf`, in order.
    fn gather(&mut self, positions: &[usize], count: usize)
        requires
            count <= positions@.len(),
            forall|j: int| 0 <= j < count ==> #[trigger] positions@[j] < old(self).prefix@.len(),
        ensures
            final(self).input_buf@ == gather(old(self).prefix@, positions@.take(count as int)),
            final(self).prefix@ == old(self).prefix@,
            final(self).tries@ == old(self).tries@,
            final(self).saved@ == old(self).saved@,
            final(self).levels == old(self).levels,
            final(self).sink == old(self).sink,
    {
        self.input_buf.clear();
        assert(self.input_buf@ =~= gather(self.prefix@, positions@.take(0)));
        let mut j: usize = 0;
        while j < count
            invariant
                j <= count,
                count <= positions@.len(),
                forall|j2: int| 0 <= j2 < count ==> #[trigger] positions@[j2] < self.prefix@.len(),
                self.input_buf@ == gather(self.prefix@, positions@.take(j as int)),
                self.prefix@ == old(self).prefix@,
                self.tries@ == old(self).tries@,
                self.saved@ == old(self).saved@,
                self.levels == old(self).levels,
                self.sink == old(self).sink,
            decreases count - j,
        {
            let pos = positions[j];
            self.input_buf.push(self.prefix[pos]);
            j = j + 1;
            assert(self.input_buf@ =~= gather(self.prefix@, positions@.take(j as int)));
        }
    }

    /// Runs the given filter operators on the prefix.
    fn filters_pass(&mut self, filters: &[Atom<Op, usize>], Ghost(i): Ghost<int>) -> (b: bool)
        requires
            forall|f: int| 0 <= f < filters@.len() ==> filter_wf(#[trigger] filters@[f], i),
            i < old(self).prefix@.len(),
        ensures
            b == forall|f: int| 0 <= f < filters@.len() ==> (#[trigger] filters@[f]).pred.spec_check(gather(old(self).prefix@, filters@[f].vars@)),
            final(self).prefix@ == old(self).prefix@,
            final(self).tries@ == old(self).tries@,
            final(self).saved@ == old(self).saved@,
            final(self).levels == old(self).levels,
            final(self).sink == old(self).sink,
    {
        let mut j: usize = 0;
        while j < filters.len()
            invariant
                j <= filters@.len(),
                forall|f: int| 0 <= f < filters@.len() ==> filter_wf(#[trigger] filters@[f], i),
                i < self.prefix@.len(),
                forall|f: int| 0 <= f < j ==> (#[trigger] filters@[f]).pred.spec_check(gather(self.prefix@, filters@[f].vars@)),
                self.prefix@ == old(self).prefix@,
                self.tries@ == old(self).tries@,
                self.saved@ == old(self).saved@,
                self.levels == old(self).levels,
                self.sink == old(self).sink,
            decreases filters@.len() - j,
        {
            let f = &filters[j];
            assert(filter_wf(*f, i));
            self.gather(f.vars.as_slice(), f.vars.len());
            assert(f.vars@.take(f.vars@.len() as int) =~= f.vars@);
            if !f.pred.check(self.input_buf.as_slice()) {
                return false;
            }
            j = j + 1;
        }
        true
    }

    /// Moves atom `trie_idx` to the node `child`. A leaf is never read again, so it is not
    /// loaded.
    fn set_trie(&mut self, trie_idx: usize, child: &'a Trie)
        requires
            trie_idx < old(self).tries@.len(),
        ensures
            final(self).tries@ == match *child {
                Trie::Node(map) => old(self).tries@.update(trie_idx as int, &map),
                Trie::Leaf => old(self).tries@,
            },
            final(self).prefix@ == old(self).prefix@,
            final(self).saved@ == old(self).saved@,
            final(self).levels == old(self).levels,
            final(self).sink == old(self).sink,
    {
        if let Trie::Node(map) = child {
            self.tries.set(trie_idx, map);
        }
    }
}

/// If the child of `m` under `k` is an inner node, atom `a` has been moved to it.
spec fn child_loaded(tries: Seq<&TrieMap>, m: TrieMap, a: int, k: Value) -> bool {
    m@[k] matches Trie::Node(c) ==> *tries[a] == c
}

pub(crate) proof fn lemma_no_dup_append<A>(a: Seq<A>, b: Seq<A>)
    requires
        a.no_duplicates(),
        b.no_duplicates(),
        forall|x: A| a.contains(x) ==> !b.contains(x),
    ensures
        (a + b).no_duplicates(),
{
    let c = a + b;
    assert forall|i: int, j: int| 0 <= i < c.len() && 0 <= j < c.len() && i != j implies c[i] != c[j] by {
        if i < a.len() && j >= a.len() {
            assert(a.contains(c[i]) && b.contains(c[j]));
        }
        if j < a.len() && i >= a.len() {
            assert(a.contains(c[j]) && b.contains(c[i]));
        }
    }
}

impl<'a, Op: Operator, S: RowSink> QueryDfsState<'a, Op, S> {
    /// Emits every solution extending the prefix, once each.
    fn execute(&mut self, level_idx: usize, Ghost(roots): Ghost<Seq<Trie>>)
        requires
            old(self).inv(roots),
            level_idx == old(self).prefix@.len(),
        ensures
            final(self).prefix@ == old(self).prefix@,
            final(self).tries@ == old(self).tries@,
            final(self).saved@ == old(self).saved@,
            final(self).levels == old(self).levels,
            final(self).sink.ready(),
            final(self).sink.target() == old(self).sink.target(),
            final(self).sink.rows().len() >= old(self).sink.rows().len(),
            final(self).sink.rows().take(old(self).sink.rows().len() as int) == old(self).sink.rows(),
            final(self).sink.rows().skip(old(self).sink.rows().len() as int).no_duplicates(),
            final(self).sink.rows().skip(old(self).sink.rows().len() as int).to_set() == extensions(
                roots,
                old(self).levels@,
                old(self).prefix@,
            ),
        decreases old(self).levels@.len() - level_idx, 1nat,
    {
        let ghost levels = self.levels@;
        let ghost p = self.prefix@;
        let ghost rows0 = self.sink.rows();
        proof {
            lemma_extensions(roots, levels, p);
        }
        if level_idx == self.levels.len() {
            self.sink.emit(self.prefix.as_slice());
            proof {
                lemma_viable_full(roots, levels, p);
                let e = self.sink.rows().skip(rows0.len() as int);
                assert(e =~= seq![p]);
                assert(self.sink.rows().take(rows0.len() as int) =~= rows0);
                assert forall|s2: Seq<Value>| extensions(roots, levels, p).contains(s2) <==> e.to_set().contains(s2) by {
                    if extensions(roots, levels, p).contains(s2) {
                        assert(s2 =~= s2.take(p.len() as int));
                        assert(e[0] == s2);
                        assert(e.contains(s2));
                    }
                    if e.to_set().contains(s2) {
                        assert(e.contains(s2));
                        assert(s2 == p);
                        assert(p.take(p.len() as int) =~= p);
                    }
                }
                assert(extensions(roots, levels, p) =~= e.to_set());
            }
            return;
        }
        let level: &'a Level<Op> = &self.levels[level_idx];
        assert(level_wf(*level, level_idx as int, roots.len() as int));
        let width = level.atoms.len();
        // Save the current node of each trie of this level.
        let mark = self.saved.len();
        let mut pos: usize = 0;
        while pos < width
            invariant
                pos <= width,
                width == level.atoms@.len(),
                mark <= self.saved@.len(),
                self.saved@.len() == mark + pos,
                self.saved@.take(mark as int) == old(self).saved@,
                forall|pos2: int| 0 <= pos2 < pos ==> self.saved@[mark + pos2] == self.tries@[level.atoms@[pos2] as int],
                forall|j: int| 0 <= j < level.atoms@.len() ==> #[trigger] level.atoms@[j] < self.tries@.len(),
                self.tries@ == old(self).tries@,
                self.prefix@ == old(self).prefix@,
                self.levels == old(self).levels,
                self.sink == old(self).sink,
            decreases width - pos,
        {
            let t = self.tries[level.atoms[pos]];
            self.saved.push(t);
            pos = pos + 1;
            proof {
                assert(self.saved@.take(mark as int) =~= old(self).saved@);
            }
        }
        proof {
            assert forall|pos2: int| 0 <= pos2 < width implies node_at(roots, levels, level.atoms@[pos2] as int, p)
                == Some(Trie::Node(*self.saved@[mark + pos2])) by {
                let a = level.atoms@[pos2] as int;
                assert(level.atoms@.contains(a as usize));
                lemma_active_in_level(levels, a, level_idx as int);
            }
        }
        let total = self.saved.len();
        assert(total == mark + width);
        let ghost saved1 = self.saved@;
        let ghost tries0 = self.tries@;
        match &level.proposer {
            // An operator proposes the single value of this level's variable; every trie of
            // the level checks it.
            Some(prop) => {
                let n_in = prop.vars.len() - 1;
                self.gather(prop.vars.as_slice(), n_in);
                assert(prop.vars@.take(n_in as int) =~= prop.vars@.drop_last());
                let computed = prop.pred.compute(self.input_buf.as_slice());
                if let Some(key) = computed {
                    self.propose(level, level_idx, mark, width, &key, Ghost(roots));
                    proof {
                        assert forall|s2: Seq<Value>| #[trigger] extensions(roots, levels, p).contains(s2) implies s2[level_idx as int] == key by {
                            assert(level_ok(levels[level_idx as int], s2, level_idx as int));
                            assert(gather(s2, prop.vars@.drop_last()) =~= gather(p, prop.vars@.drop_last()));
                        }
                        assert(extensions(roots, levels, p) =~= extensions(roots, levels, p.push(key)));
                    }
                } else {
                    proof {
                        assert forall|s2: Seq<Value>| !extensions(roots, levels, p).contains(s2) by {
                            if extensions(roots, levels, p).contains(s2) {
                                assert(level_ok(levels[level_idx as int], s2, level_idx as int));
                                assert(gather(s2, prop.vars@.drop_last()) =~= gather(p, prop.vars@.drop_last()));
                            }
                        }
                        assert(self.sink.rows().skip(rows0.len() as int) =~= Seq::<Seq<Value>>::empty());
                        assert(self.sink.rows().take(rows0.len() as int) =~= rows0);
                        assert(extensions(roots, levels, p) =~= Set::<Seq<Value>>::empty());
                    }
                }
            },
            // No operator proposes: the trie with the fewest children proposes its keys, and
            // every other trie of the level checks them.
            None => {
                let mut proposer_pos: usize = 0;
                let mut best = self.saved[mark].len();
                let mut pos: usize = 1;
                while pos < width
                    invariant
                        1 <= pos <= width,
                        proposer_pos < width,
                        width == level.atoms@.len(),
                        self.saved@ == saved1,
                        saved1.len() == mark + width,
                        mark + width == total,
                    decreases width - pos,
                {
                    let size = self.saved[mark + pos].len();
                    if size < best {
                        best = size;
                        proposer_pos = pos;
                    }
                    pos = pos + 1;
                }
                let proposer_map: &'a TrieMap = self.saved[mark + proposer_pos];
                let ghost i = level_idx as int;
                let ghost pa = level.atoms@[proposer_pos as int] as int;
                let ghost m = *proposer_map;
                let ghost seq0 = spec_hash_map_iter(proposer_map).remaining();
                proof {
                    assert(node_at(roots, levels, pa, p) == Some(Trie::Node(m)));
                }
                for (key, child) in it: proposer_map.iter()
                    invariant
                        i == level_idx,
                        i == p.len(),
                        i < levels.len(),
                        *level == levels[i],
                        level.proposer is None,
                        level_wf(*level, i, roots.len() as int),
                        exec_wf(roots, levels),
                        viable(roots, levels, p),
                        levels == self.levels@,
                        levels == old(self).levels@,
                        self.prefix@ == p,
                        self.saved@ == saved1,
                        saved1.len() == mark + width,
                        width == level.atoms@.len(),
                        proposer_pos < width,
                        pa == level.atoms@[proposer_pos as int] as int,
                        m == *saved1[mark + proposer_pos],
                        it.seq() == seq0,
                        seq0.no_duplicates(),
                        m == *proposer_map,
                        seq0 == spec_hash_map_iter(proposer_map).remaining(),
                        forall|pos2: int| 0 <= pos2 < width ==> node_at(roots, levels, level.atoms@[pos2] as int, p)
                            == Some(Trie::Node(*saved1[mark + pos2])),
                        tries0.len() == roots.len(),
                        self.tries@.len() == tries0.len(),
                        forall|a: int| 0 <= a < tries0.len() && !level.atoms@.contains(a as usize) ==> #[trigger] self.tries@[a] == tries0[a],
                        forall|a: int|
                            0 <= a < roots.len() && levels_of(levels.take(i), a).len() < levels_of(levels, a).len()
                                ==> node_at(roots, levels, a, p) == Some(Trie::Node(*#[trigger] tries0[a])),
                        self.sink.ready(),
                        self.sink.target() == old(self).sink.target(),
                        self.sink.rows().len() >= rows0.len(),
                        self.sink.rows().take(rows0.len() as int) == rows0,
                        self.sink.rows().skip(rows0.len() as int).no_duplicates(),
                        self.sink.rows().skip(rows0.len() as int).to_set() == Set::new(|s2: Seq<Value>| extensions(roots, levels, p).contains(s2)
                            && exists|j: int| 0 <= j < it.index() && *it.seq()[j].0 == s2[i]),
                {
                    let ghost rows1 = self.sink.rows();
                    let ghost e1 = rows1.skip(rows0.len() as int);
                    let ghost k = it.index();
                    proof {
                        assert(it.seq()[k] == (key, child));
                        assert(seq0 == spec_hash_map_iter(proposer_map).remaining());
                        assert(seq0.len() == proposer_map@.dom().len());
                        assert(proposer_map@.contains_key(*seq0[k].0));
                        assert(m@ == proposer_map@);
                        assert(m@.contains_key(*key) && m@[*key] == *child);
                    }
                    self.set_trie(level.atoms[proposer_pos], child);
                    proof {
                        assert forall|a: int|
                            0 <= a < roots.len() && !level.atoms@.contains(a as usize) && levels_of(levels.take(i), a).len()
                                < levels_of(levels, a).len() implies node_at(roots, levels, a, p)
                                == Some(Trie::Node(*#[trigger] self.tries@[a])) by {
                            assert(self.tries@[a] == tries0[a]);
                        }
                    }
                    self.propose(level, level_idx, mark, proposer_pos, key, Ghost(roots));
                    proof {
                        lemma_extensions(roots, levels, p);
                        let rows2 = self.sink.rows();
                        let e2 = rows2.skip(rows1.len() as int);
                        let e = rows2.skip(rows0.len() as int);
                        assert(rows2.take(rows1.len() as int).take(rows0.len() as int) =~= rows2.take(rows0.len() as int));
                        assert(e =~= e1 + e2);
                        assert(rows2.take(rows0.len() as int) =~= rows0);
                        assert forall|x: Seq<Value>| e1.contains(x) implies !e2.contains(x) by {
                            assert(e1.to_set().contains(x));
                            if e2.contains(x) {
                                assert(e2.to_set().contains(x));
                                assert(x[i] == *key);
                                let j = choose|j: int| 0 <= j < k && *it.seq()[j].0 == x[i];
                                assert(it.seq()[j] != it.seq()[k]);
                                assert(m@[*it.seq()[j].0] == *it.seq()[j].1);
                            }
                        }
                        lemma_no_dup_append(e1, e2);
                        lemma_extensions(roots, levels, p);
                        assert(e.to_set() =~= Set::new(|s2: Seq<Value>| extensions(roots, levels, p).contains(s2)
                            && exists|j: int| 0 <= j < k + 1 && *it.seq()[j].0 == s2[i])) by {
                            assert forall|s2: Seq<Value>| e.to_set().contains(s2) implies extensions(roots, levels, p).contains(s2)
                                && exists|j: int| 0 <= j < k + 1 && *it.seq()[j].0 == s2[i] by {
                                assert(e.contains(s2));
                                let n = choose|n: int| 0 <= n < e.len() && e[n] == s2;
                                if n < e1.len() {
                                    assert(e1[n] == s2);
                                    assert(e1.to_set().contains(s2));
                                } else {
                                    assert(e2[n - e1.len()] == s2);
                                    assert(e2.to_set().contains(s2));
                                }
                            }
                            assert forall|s2: Seq<Value>| extensions(roots, levels, p).contains(s2)
                                && (exists|j: int| 0 <= j < k + 1 && *it.seq()[j].0 == s2[i]) implies #[trigger] e.to_set().contains(s2) by {
                                let j = choose|j: int| 0 <= j < k + 1 && *it.seq()[j].0 == s2[i];
                                if j < k {
                                    assert(e1.to_set().contains(s2));
                                    let n = choose|n: int| 0 <= n < e1.len() && e1[n] == s2;
                                    assert(e[n] == s2);
                                } else {
                                    assert(extensions(roots, levels, p.push(*key)).contains(s2));
                                    assert(e2.to_set().contains(s2));
                                    let n = choose|n: int| 0 <= n < e2.len() && e2[n] == s2;
                                    assert(e[e1.len() + n] == s2);
                                }
                            }
                        }
                    }
                }
                proof {
                    let e = self.sink.rows().skip(rows0.len() as int);
                    assert(e.to_set() == Set::new(|s2: Seq<Value>| extensions(roots, levels, p).contains(s2)
                            && exists|j: int| 0 <= j < seq0.len() && *seq0[j].0 == s2[i]));
                    lemma_extensions(roots, levels, p);
                    assert forall|s2: Seq<Value>| extensions(roots, levels, p).contains(s2)
                        implies exists|j: int| 0 <= j < seq0.len() && *seq0[j].0 == s2[i] by {
                        let q = p.push(s2[i]);
                        assert(extensions(roots, levels, q).contains(s2));
                        lemma_extensions(roots, levels, q);
                        assert(!extensions(roots, levels, q).is_empty());
                        assert(viable(roots, levels, q));
                        lemma_viable_push(roots, levels, p, s2[i]);
                        assert(node_has(roots, levels, level.atoms@[proposer_pos as int] as int, p, s2[i]));
                        assert(m@.contains_key(s2[i]));
                        assert(seq0.contains((&s2[i], &m@[s2[i]])));
                    }
                    assert(e.to_set() =~= extensions(roots, levels, p));
                }
            },
        }
        // Restore the tries of this level.
        let ghost sink1 = self.sink;
        let mut pos: usize = 0;
        while pos < width
            invariant
                pos <= width,
                width == level.atoms@.len(),
                self.saved@ == saved1,
                saved1.len() == mark + width,
                mark + width == total,
                self.sink == sink1,
                self.prefix@ == old(self).prefix@,
                self.levels == old(self).levels,
                forall|pos2: int| 0 <= pos2 < width ==> saved1[mark + pos2] == tries0[level.atoms@[pos2] as int],
                forall|j: int| 0 <= j < level.atoms@.len() ==> #[trigger] level.atoms@[j] < tries0.len(),
                self.tries@.len() == tries0.len(),
                forall|a: int| 0 <= a < tries0.len() && !level.atoms@.contains(a as usize) ==> #[trigger] self.tries@[a] == tries0[a],
                forall|pos2: int| 0 <= pos2 < pos ==> self.tries@[level.atoms@[pos2] as int] == tries0[level.atoms@[pos2] as int],
            decreases width - pos,
        {
            let t = self.saved[mark + pos];
            self.tries.set(level.atoms[pos], t);
            pos = pos + 1;
        }
        self.saved.truncate(mark);
        proof {
            assert forall|a: int| 0 <= a < tries0.len() implies #[trigger] self.tries@[a] == tries0[a] by {
                if level.atoms@.contains(a as usize) {
                    let pos2 = choose|pos2: int| 0 <= pos2 < width && level.atoms@[pos2] == a as usize;
                    assert(self.tries@[level.atoms@[pos2] as int] == tries0[level.atoms@[pos2] as int]);
                }
            }
            assert(self.tries@ =~= tries0);
            assert(self.saved@ =~= saved1.take(mark as int));
        }
    }

    /// Proposes `key` for this level: looks it up in every trie of the level but the
    /// proposer's, descends into the children, and recurses if the level's filters pass.
    fn propose(
        &mut self,
        level: &'a Level<Op>,
        level_idx: usize,
        mark: usize,
        proposer_pos: usize,
        key: &Value,
        Ghost(roots): Ghost<Seq<Trie>>,
    )
        requires
            level_idx == old(self).prefix@.len(),
            level_idx < old(self).levels@.len(),
            *level == old(self).levels@[level_idx as int],
            exec_wf(roots, old(self).levels@),
            old(self).tries@.len() == roots.len(),
            viable(roots, old(self).levels@, old(self).prefix@),
            old(self).sink.ready(),
            forall|a: int|
                0 <= a < roots.len() && !level.atoms@.contains(a as usize) && levels_of(old(self).levels@.take(level_idx as int), a).len()
                    < levels_of(old(self).levels@, a).len() ==> node_at(roots, old(self).levels@, a, old(self).prefix@)
                    == Some(Trie::Node(*#[trigger] old(self).tries@[a])),
            mark + level.atoms@.len() == old(self).saved@.len(),
            forall|pos: int| 0 <= pos < level.atoms@.len() ==> node_at(roots, old(self).levels@, level.atoms@[pos] as int, old(self).prefix@)
                == Some(Trie::Node(*old(self).saved@[mark + pos])),
            proposer_pos <= level.atoms@.len(),
            proposer_pos < level.atoms@.len() ==> {
                let m = *old(self).saved@[mark + proposer_pos];
                &&& m@.contains_key(*key)
                &&& (m@[*key] matches Trie::Node(child) ==> *old(self).tries@[level.atoms@[proposer_pos as int] as int] == child)
                &&& level.proposer is None
            },
            proposer_pos == level.atoms@.len() ==> (level.proposer matches Some(pr) && pr.pred.spec_compute(
                gather(old(self).prefix@, pr.vars@.drop_last()),
            ) == Some(*key)),
        ensures
            final(self).prefix@ == old(self).prefix@,
            final(self).saved@ == old(self).saved@,
            final(self).levels == old(self).levels,
            final(self).tries@.len() == old(self).tries@.len(),
            forall|a: int| 0 <= a < old(self).tries@.len() && !level.atoms@.contains(a as usize) ==> #[trigger] final(self).tries@[a] == old(self).tries@[a],
            final(self).sink.ready(),
            final(self).sink.target() == old(self).sink.target(),
            final(self).sink.rows().len() >= old(self).sink.rows().len(),
            final(self).sink.rows().take(old(self).sink.rows().len() as int) == old(self).sink.rows(),
            final(self).sink.rows().skip(old(self).sink.rows().len() as int).no_duplicates(),
            final(self).sink.rows().skip(old(self).sink.rows().len() as int).to_set() == extensions(
                roots,
                old(self).levels@,
                old(self).prefix@.push(*key),
            ),
        decreases old(self).levels@.len() - level_idx, 0nat,
    {
        let ghost levels = self.levels@;
        let ghost p = self.prefix@;
        let ghost i = level_idx as int;
        let ghost q = p.push(*key);
        let ghost rows0 = self.sink.rows();
        let ghost saved0 = self.saved@;
        let ghost tries0 = self.tries@;
        proof {
            assert(level_wf(*level, i, roots.len() as int));
            lemma_viable_push(roots, levels, p, *key);
            lemma_extensions(roots, levels, q);
        }
        let width = level.atoms.len();
        let total = self.saved.len();
        // Look the key up in each trie of the level and descend into the children.
        let mut pos: usize = 0;
        while pos < width
            invariant
                pos <= width,
                mark + width == total,
                width == level.atoms@.len(),
                level_wf(*level, i, roots.len() as int),
                exec_wf(roots, levels),
                viable(roots, levels, p),
                levels == self.levels@,
                i == level_idx,
                p.len() == i,
                i < levels.len(),
                *level == levels[i],
                q == p.push(*key),
                rows0 == self.sink.rows(),
                p == old(self).prefix@,
                saved0 == old(self).saved@,
                tries0 == old(self).tries@,
                rows0 == old(self).sink.rows(),
                self.sink.ready(),
                proposer_pos <= width,
                forall|pos2: int| 0 <= pos2 < width ==> node_at(roots, levels, level.atoms@[pos2] as int, p)
                    == Some(Trie::Node(*saved0[mark + pos2])),
                self.prefix@ == p,
                self.saved@ == saved0,
                saved0.len() == mark + width,
                self.levels == old(self).levels,
                self.sink == old(self).sink,
                self.tries@.len() == tries0.len(),
                tries0.len() == roots.len(),
                forall|a: int| 0 <= a < tries0.len() && !level.atoms@.contains(a as usize) ==> #[trigger] self.tries@[a] == tries0[a],
                forall|pos2: int| 0 <= pos2 < pos && pos2 != proposer_pos ==> #[trigger] node_has(roots, levels, level.atoms@[pos2] as int, p, *key),
                forall|pos2: int| 0 <= pos2 < pos && pos2 != proposer_pos ==> #[trigger] child_loaded(self.tries@, *saved0[mark + pos2], level.atoms@[pos2] as int, *key),
                proposer_pos < width ==> child_loaded(self.tries@, *saved0[mark + proposer_pos], level.atoms@[proposer_pos as int] as int, *key),
            decreases width - pos,
        {
            if pos != proposer_pos {
                let ghost before = self.tries@;
                let node: &'a TrieMap = self.saved[mark + pos];
                let found = node.get(key);
                if found.is_none() {
                    proof {
                        lemma_viable_push(roots, levels, p, *key);
                        lemma_extensions(roots, levels, q);
                        let a = level.atoms@[pos as int] as int;
                        assert(node_at(roots, levels, a, p) == Some(Trie::Node(*saved0[mark + pos])));
                        assert(!node_has(roots, levels, a, p, *key));
                        assert(!viable(roots, levels, q));
                        assert(extensions(roots, levels, q) =~= Set::<Seq<Value>>::empty());
                        assert(self.sink.rows().skip(rows0.len() as int) =~= Seq::<Seq<Value>>::empty());
                        assert(self.sink.rows().take(rows0.len() as int) =~= rows0);
                    }
                    return;
                }
                let child: &'a Trie = found.unwrap();
                self.set_trie(level.atoms[pos], child);
                proof {
                    let a = level.atoms@[pos as int] as int;
                    assert(*child == saved0[mark + pos]@[*key]);
                    assert(node_at(roots, levels, a, p) == Some(Trie::Node(*saved0[mark + pos])));
                    assert(node_has(roots, levels, a, p, *key));
                    assert forall|pos2: int| 0 <= pos2 < width && pos2 != pos implies level.atoms@[pos2] != level.atoms@[pos as int] by {
                        if pos2 < pos { assert(level.atoms@[pos2] < level.atoms@[pos as int]); }
                        else { assert(level.atoms@[pos as int] < level.atoms@[pos2]); }
                    }
                    assert(level.atoms@.contains(a as usize));
                    assert forall|pos2: int| 0 <= pos2 < pos + 1 && pos2 != proposer_pos implies #[trigger] child_loaded(self.tries@, *saved0[mark + pos2], level.atoms@[pos2] as int, *key) by {
                        if pos2 < pos {
                            assert(child_loaded(before, *saved0[mark + pos2], level.atoms@[pos2] as int, *key));
                            assert(self.tries@[level.atoms@[pos2] as int] == before[level.atoms@[pos2] as int]);
                        }
                    }
                    if proposer_pos < width {
                        assert(child_loaded(before, *saved0[mark + proposer_pos], level.atoms@[proposer_pos as int] as int, *key));
                        assert(self.tries@[level.atoms@[proposer_pos as int] as int] == before[level.atoms@[proposer_pos as int] as int]);
                    }
                }
            }
            pos = pos + 1;
        }
        self.prefix.push(*key);
        assert(self.prefix@ == q);
        let pass = self.filters_pass(level.filters.as_slice(), Ghost(i));
        if pass {
            proof {
                if level.proposer is Some {
                    let pr = level.proposer->0;
                    assert(gather(q, pr.vars@.drop_last()) =~= gather(p, pr.vars@.drop_last()));
                }
                assert(level_ok(*level, q, i));
                assert forall|j: int| 0 <= j < level.atoms@.len() implies #[trigger] node_has(roots, levels, level.atoms@[j] as int, p, *key) by {
                    if j == proposer_pos {
                        assert(node_at(roots, levels, level.atoms@[j] as int, p) == Some(Trie::Node(*saved0[mark + j])));
                    }
                }
                assert(viable(roots, levels, q));
                assert forall|a: int|
                    0 <= a < roots.len() && levels_of(levels.take(q.len() as int), a).len() < levels_of(levels, a).len()
                    implies node_at(roots, levels, a, q) == Some(Trie::Node(*#[trigger] self.tries@[a])) by {
                    lemma_levels_of_take(levels, a, i);
                    if level.atoms@.contains(a as usize) {
                        let pos2 = choose|pos2: int| 0 <= pos2 < level.atoms@.len() && level.atoms@[pos2] == a as usize;
                        let m = *saved0[mark + pos2];
                        assert(node_at(roots, levels, a, p) == Some(Trie::Node(m)));
                        assert(node_has(roots, levels, level.atoms@[pos2] as int, p, *key));
                        assert(node_at(roots, levels, a, q) == Some(m@[*key]));
                        lemma_subtrie_wf(roots[a], levels_of(levels, a).len(), project(q, levels_of(levels.take(q.len() as int), a)));
                        lemma_levels_of_count(levels.take(q.len() as int), a);
                        lemma_wf_pos(m@[*key], (levels_of(levels, a).len() - levels_of(levels.take(q.len() as int), a).len()) as nat);
                        assert(child_loaded(self.tries@, m, a, *key)) by {
                            if pos2 != proposer_pos {
                                assert(child_loaded(self.tries@, *saved0[mark + pos2], level.atoms@[pos2] as int, *key));
                            }
                        }
                    } else {
                        assert(node_at(roots, levels, a, q) == node_at(roots, levels, a, p));
                    }
                }
            }
            self.execute(level_idx + 1, Ghost(roots));
        } else {
            proof {
                assert(!level_ok(*level, q, i));
                assert(!viable(roots, levels, q));
                assert(extensions(roots, levels, q) =~= Set::<Seq<Value>>::empty());
                assert(self.sink.rows().skip(rows0.len() as int) =~= Seq::<Seq<Value>>::empty());
                assert(self.sink.rows().take(rows0.len() as int) =~= rows0);
            }
        }
        self.prefix.pop();
    }
}

impl<'a, Op: Operator> ExecutableQuery<'a, Op> {
    /// The root node of every atom's trie; `empty` stands in for a trie that is a leaf,
    /// which is never read.
    pub(crate) fn root_nodes<'b>(&'b self, empty: &'b TrieMap) -> (r: Vec<&'b TrieMap>)
        ensures
            r@.len() == self.tries@.len(),
            forall|a: int| 0 <= a < r@.len() ==> (#[trigger] self.roots()[a] matches Trie::Node(m) ==> *r@[a] == m),
    {
        let ghost roots = self.roots();
        let n = self.tries.len();
        let mut tries: Vec<&'b TrieMap> = Vec::new();
        let mut a: usize = 0;
        while a < n
            invariant
                a <= n,
                n == self.tries@.len(),
                roots == self.roots(),
                tries@.len() == a,
                forall|a2: int| 0 <= a2 < a ==> (#[trigger] roots[a2] matches Trie::Node(m) ==> *tries@[a2] == m),
            decreases n - a,
        {
            match self.tries[a] {
                Trie::Node(map) => tries.push(map),
                Trie::Leaf => tries.push(empty),
            }
            a = a + 1;
        }
        tries
    }

    /// The empty binding is viable, with every active atom at its trie's root.
    pub(crate) proof fn lemma_start(&self, ns: Seq<&TrieMap>)
        requires
            self.wf(),
            ns.len() == self.tries@.len(),
            forall|a: int| 0 <= a < ns.len() ==> (#[trigger] self.roots()[a] matches Trie::Node(m) ==> *ns[a] == m),
        ensures
            exec_wf(self.roots(), self.levels@),
            viable(self.roots(), self.levels@, Seq::empty()),
            forall|a: int|
                0 <= a < self.roots().len() && levels_of(self.levels@.take(0), a).len() < levels_of(self.levels@, a).len()
                ==> node_at(self.roots(), self.levels@, a, Seq::empty()) == Some(Trie::Node(*#[trigger] ns[a])),
    {
        let roots = self.roots();
        let levels = self.levels@;
        let p = Seq::<Value>::empty();
        assert(self.tries@.len() == self.tries.len());
        assert(levels.take(0) =~= Seq::<Level<Op>>::empty());
        assert forall|a2: int| 0 <= a2 < roots.len() implies subtrie(#[trigger] roots[a2], project(p, levels_of(levels.take(p.len() as int), a2))) is Some by {
            assert(project(p, levels_of(levels.take(0), a2)) =~= Seq::<Value>::empty());
        }
        assert(viable(roots, levels, p));
        assert forall|a2: int|
            0 <= a2 < roots.len() && levels_of(levels.take(0), a2).len() < levels_of(levels, a2).len()
            implies node_at(roots, levels, a2, p) == Some(Trie::Node(*#[trigger] ns[a2])) by {
            assert(project(p, levels_of(levels.take(0), a2)) =~= Seq::<Value>::empty());
            assert(trie_wf(*self.tries@[a2], levels_of(levels, a2).len()));
            lemma_wf_pos(roots[a2], levels_of(levels, a2).len());
        }
    }

    /// The state of a traversal that starts at the root of every trie.
    fn start_state<'b, S: RowSink>(&'b self, sink: S, empty: &'b TrieMap) -> (st: QueryDfsState<'b, Op, S>)
        requires
            self.wf(),
            sink.ready(),
        ensures
            st.inv(self.roots()),
            st.prefix@.len() == 0,
            st.saved@.len() == 0,
            st.levels@ == self.levels@,
            st.sink == sink,
    {
        let ghost roots = self.roots();
        let tries = self.root_nodes(empty);
        let st = QueryDfsState {
            sink,
            levels: self.levels,
            prefix: Vec::new(),
            tries,
            saved: Vec::new(),
            input_buf: Vec::new(),
        };
        proof {
            self.lemma_start(st.tries@);
            assert(st.prefix@ =~= Seq::<Value>::empty());
        }
        st
    }

    /// Runs the query depth-first and hands each result row to `f`, once each. Returns the
    /// rows that `f` was handed, in order: exactly the query's solutions, none twice.
    pub fn execute_dfs<F: FnMut(&[Value])>(&self, f: F) -> (rows: Ghost<Seq<Seq<Value>>>)
        requires
            self.wf(),
            forall|row: &[Value]| call_requires(f, (row,)),
        ensures
            rows@.no_duplicates(),
            rows@.to_set() == self.solutions(),
            forall|i: int| 0 <= i < rows@.len() ==> handed_to(f, #[trigger] rows@[i]),
    {
        let empty: TrieMap = HashMap::new();
        let sink = Callback { f, log: Ghost(Seq::empty()) };
        assert(sink.target() == f);
        let mut st = self.start_state(sink, &empty);
        assert(st.sink.rows().len() == 0);
        assert(st.prefix@ =~= Seq::<Value>::empty());
        st.execute(0, Ghost(self.roots()));
        proof {
            let rows = st.sink.rows();
            assert(st.sink.f == f);
            assert(st.sink.ready());
            assert(st.sink.log@ == rows);
            assert(rows.skip(0) =~= rows);
            assert(rows.to_set() == extensions(self.roots(), self.levels@, Seq::empty()));
            assert(extensions(self.roots(), self.levels@, Seq::empty()) =~= self.solutions()) by {
                assert forall|s2: Seq<Value>| #[trigger] self.solutions().contains(s2) implies s2.take(0) == Seq::<Value>::empty() by {
                    assert(s2.take(0) =~= Seq::<Value>::empty());
                }
            }
        }
        let rows: Ghost<Seq<Seq<Value>>> = Ghost(st.sink.log@);
        rows
    }

    /// Runs the query depth-first and collects the result rows, sorted ascending. Rows are
    /// distinct, so the order is strict.
    pub fn collect_dfs(&self) -> (out: Vec<Vec<Value>>)
        requires
            self.wf(),
        ensures
            rows_strictly_sorted(rows_of(out@)),
            rows_of(out@).to_set() == self.solutions(),
    {
        let empty: TrieMap = HashMap::new();
        let sink = Collect { out: Vec::new() };
        let mut st = self.start_state(sink, &empty);
        assert(st.sink.rows().len() == 0);
        assert(st.prefix@ =~= Seq::<Value>::empty());
        st.execute(0, Ghost(self.roots()));
        let mut out = st.sink.out;
        let ghost before = rows_of(out@);
        proof {
            assert(before.skip(0) =~= before);
            assert(before.to_set() == extensions(self.roots(), self.levels@, Seq::empty()));
            assert(extensions(self.roots(), self.levels@, Seq::empty()) =~= self.solutions()) by {
                assert forall|s2: Seq<Value>| #[trigger] self.solutions().contains(s2) implies s2.take(0) == Seq::<Value>::empty() by {
                    assert(s2.take(0) =~= Seq::<Value>::empty());
                }
            }
        }
        sort_rows(&mut out);
        proof {
            lemma_same_multiset(before, rows_of(out@));
            lemma_rows_strict(rows_of(out@));
        }
        out
    }

    /// Runs the query depth-first and collects the result rows, sorted ascending by the
    /// values before untagging, with every value then untagged as a `V`. For `usize`, the
    /// value type here, untagging keeps each value, so the rows come in `V`'s order.
    pub fn collect_dfs_untagged<V: ValueType + Ord>(&self) -> (out: Vec<Vec<V>>)
        requires
            self.wf(),
        ensures
            exists|rows: Seq<Seq<Value>>|
                #![trigger rows.to_set()]
                rows_strictly_sorted(rows) && rows.to_set() == self.solutions()
                && out@.map_values(|r: Vec<V>| r@) == rows.map_values(|r: Seq<Value>| untag_row::<V>(r)),
    {
        let rows = self.collect_dfs();
        let ghost rv = rows_of(rows@);
        let mut out: Vec<Vec<V>> = Vec::new();
        let mut k: usize = 0;
        while k < rows.len()
            invariant
                k <= rows@.len(),
                rv == rows_of(rows@),
                out@.map_values(|r: Vec<V>| r@) == rv.take(k as int).map_values(|r: Seq<Value>| untag_row::<V>(r)),
            decreases rows@.len() - k,
        {
            let row = &rows[k];
            let mut u: Vec<V> = Vec::new();
            let mut j: usize = 0;
            while j < row.len()
                invariant
                    j <= row@.len(),
                    u@ == untag_row::<V>(row@.take(j as int)),
                decreases row@.len() - j,
            {
                u.push(row[j].untag());
                j = j + 1;
                assert(u@ =~= untag_row::<V>(row@.take(j as int)));
            }
            assert(row@.take(row@.len() as int) =~= row@);
            let ghost out0 = out@.map_values(|r: Vec<V>| r@);
            out.push(u);
            proof {
                assert(rv[k as int] == row@);
                assert(out@.map_values(|r: Vec<V>| r@) =~= out0.push(untag_row::<V>(row@)));
                assert(rv.take(k as int + 1) =~= rv.take(k as int).push(rv[k as int]));
            }
            k = k + 1;
            assert(out@.map_values(|r: Vec<V>| r@) =~= rv.take(k as int).map_values(|r: Seq<Value>| untag_row::<V>(r)));
        }
        assert(rv.take(rows@.len() as int) =~= rv);
        out
    }
}

/// A row with every value untagged as a `V`.
pub open spec fn untag_row<V: ValueType>(r: Seq<Value>) -> Seq<V> {
    r.map_values(|x: Value| V::spec_from_value(x))
}

} // verus!
