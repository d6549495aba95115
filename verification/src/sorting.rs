//! Lexicographic order on rows, and sorting of row and pair vectors.
use vstd::prelude::*;

verus! {

broadcast use vstd::seq_lib::group_to_multiset_ensures;

/// `a` comes strictly before `b` in lexicographic order (a proper prefix comes first).
pub open spec fn lex_lt(a: Seq<usize>, b: Seq<usize>) -> bool
    decreases a.len(),
{
    if a.len() == 0 {
        b.len() > 0
    } else if b.len() == 0 {
        false
    } else if a[0] != b[0] {
        a[0] < b[0]
    } else {
        lex_lt(a.drop_first(), b.drop_first())
    }
}

/// The views of a vector of rows.
pub open spec fn rows_of(v: Seq<Vec<usize>>) -> Seq<Seq<usize>> {
    v.map_values(|r: Vec<usize>| r@)
}

/// No row comes after a later one.
pub open spec fn rows_sorted(rows: Seq<Seq<usize>>) -> bool {
    forall|i: int, j: int| 0 <= i < j < rows.len() ==> !lex_lt(#[trigger] rows[j], #[trigger] rows[i])
}

/// Every row comes strictly before every later one.
pub open spec fn rows_strictly_sorted(rows: Seq<Seq<usize>>) -> bool {
    forall|i: int, j: int| 0 <= i < j < rows.len() ==> lex_lt(#[trigger] rows[i], #[trigger] rows[j])
}

/// `(a, b)` comes strictly before `(c, d)`: by first component, then by second.
pub open spec fn pair_lt(x: (usize, usize), y: (usize, usize)) -> bool {
    x.0 < y.0 || (x.0 == y.0 && x.1 < y.1)
}

/// No pair comes after a later one.
pub open spec fn pairs_sorted(s: Seq<(usize, usize)>) -> bool {
    forall|i: int, j: int| 0 <= i < j < s.len() ==> !pair_lt(#[trigger] s[j], #[trigger] s[i])
}

/// Every pair comes strictly before every later one.
pub open spec fn pairs_strictly_sorted(s: Seq<(usize, usize)>) -> bool {
    forall|i: int, j: int| 0 <= i < j < s.len() ==> pair_lt(#[trigger] s[i], #[trigger] s[j])
}

/// Lexicographic order is a strict total order.
pub proof fn lemma_lex_order(a: Seq<usize>, b: Seq<usize>, c: Seq<usize>)
    ensures
        !lex_lt(a, a),
        a != b ==> lex_lt(a, b) || lex_lt(b, a),
        !(lex_lt(a, b) && lex_lt(b, a)),
        lex_lt(a, b) && lex_lt(b, c) ==> lex_lt(a, c),
    decreases a.len(),
{
    if a.len() > 0 {
        lemma_lex_order(a.drop_first(), a.drop_first(), a.drop_first());
    }
    if a.len() > 0 && b.len() > 0 {
        if a != b && a[0] == b[0] {
            assert(a.drop_first() != b.drop_first()) by {
                if a.drop_first() == b.drop_first() {
                    assert(a =~= seq![a[0]] + a.drop_first());
                    assert(b =~= seq![b[0]] + b.drop_first());
                }
            }
        }
        if c.len() > 0 {
            lemma_lex_order(a.drop_first(), b.drop_first(), c.drop_first());
        } else {
            lemma_lex_order(a.drop_first(), b.drop_first(), a.drop_first());
        }
    } else if a.len() == 0 && b.len() == 0 {
        assert(a =~= b);
    }
}

/// A sorted sequence of distinct rows is strictly sorted.
pub proof fn lemma_rows_strict(rows: Seq<Seq<usize>>)
    requires
        rows_sorted(rows),
        rows.no_duplicates(),
    ensures
        rows_strictly_sorted(rows),
{
    assert forall|i: int, j: int| 0 <= i < j < rows.len() implies lex_lt(#[trigger] rows[i], #[trigger] rows[j]) by {
        lemma_lex_order(rows[i], rows[j], rows[i]);
    }
}

/// Two sequences with the same multiset have the same elements, and one has no
/// duplicates if the other has none.
pub proof fn lemma_same_multiset<A>(a: Seq<A>, b: Seq<A>)
    requires
        a.to_multiset() == b.to_multiset(),
    ensures
        a.to_set() == b.to_set(),
        a.len() == b.len(),
        a.no_duplicates() ==> b.no_duplicates(),
{
    assert forall|x: A| a.to_set().contains(x) <==> b.to_set().contains(x) by {
        assert(a.contains(x) <==> a.to_multiset().count(x) > 0);
        assert(b.contains(x) <==> b.to_multiset().count(x) > 0);
    }
    assert(a.to_set() =~= b.to_set());
    a.to_multiset_ensures();
    b.to_multiset_ensures();
    if a.no_duplicates() {
        a.lemma_multiset_has_no_duplicates();
        b.lemma_multiset_has_no_duplicates_conv();
    }
}

/// `<[Vec<usize>]>::sort_unstable`: reorders the rows so that they ascend in the
/// lexicographic order that std's `Ord` for vectors documents; the rows themselves are
/// kept, each as often as before.
#[verifier::external_body]
pub(crate) fn sort_rows(v: &mut Vec<Vec<usize>>)
    ensures
        rows_of(final(v)@).to_multiset() == rows_of(old(v)@).to_multiset(),
        rows_sorted(rows_of(final(v)@)),
{
    v.sort_unstable();
}

/// `<[(usize, usize)]>::sort_unstable`: reorders the pairs so that they ascend in the
/// order that std's `Ord` for tuples documents (by the first component, then the
/// second); the pairs themselves are kept, each as often as before.
#[verifier::external_body]
pub(crate) fn sort_pairs(v: &mut Vec<(usize, usize)>)
    ensures
        final(v)@.to_multiset() == old(v)@.to_multiset(),
        pairs_sorted(final(v)@),
{
    v.sort_unstable();
}


/// Two strictly sorted sequences of rows with the same rows are the same sequence.
pub proof fn lemma_sorted_unique(a: Seq<Seq<usize>>, b: Seq<Seq<usize>>)
    requires
        rows_strictly_sorted(a),
        rows_strictly_sorted(b),
        a.to_set() == b.to_set(),
    ensures
        a == b,
    decreases a.len(),
{
    if a.len() == 0 {
        if b.len() > 0 {
            assert(b.contains(b[0]));
            assert(b.to_set().contains(b[0]));
        }
        assert(a =~= b);
    } else if b.len() == 0 {
        assert(a.contains(a[0]));
        assert(a.to_set().contains(a[0]));
    } else {
        assert(a.contains(a[0]));
        assert(b.to_set().contains(a[0]));
        let j = choose|j: int| 0 <= j < b.len() && b[j] == a[0];
        assert(b.contains(b[0]));
        assert(a.to_set().contains(b[0]));
        let i = choose|i: int| 0 <= i < a.len() && a[i] == b[0];
        if i > 0 && j > 0 {
            assert(lex_lt(a[0], a[i]));
            assert(lex_lt(b[0], b[j]));
            lemma_lex_order(a[0], b[0], a[0]);
        }
        if i > 0 && j == 0 {
            assert(lex_lt(a[0], a[i]));
            lemma_lex_order(a[0], a[0], a[0]);
        }
        if j > 0 && i == 0 {
            assert(lex_lt(b[0], b[j]));
            lemma_lex_order(b[0], b[0], b[0]);
        }
        assert(a[0] == b[0]);
        let a1 = a.drop_first();
        let b1 = b.drop_first();
        assert forall|x: Seq<usize>| a1.to_set().contains(x) <==> b1.to_set().contains(x) by {
            if a1.contains(x) {
                let n = choose|n: int| 0 <= n < a1.len() && a1[n] == x;
                assert(a[n + 1] == x);
                assert(lex_lt(a[0], x));
                lemma_lex_order(x, x, x);
                assert(a.contains(x));
                assert(b.to_set().contains(x));
                let n2 = choose|n2: int| 0 <= n2 < b.len() && b[n2] == x;
                assert(n2 != 0);
                assert(b1[n2 - 1] == x);
            }
            if b1.contains(x) {
                let n = choose|n: int| 0 <= n < b1.len() && b1[n] == x;
                assert(b[n + 1] == x);
                assert(lex_lt(b[0], x));
                lemma_lex_order(x, x, x);
                assert(b.contains(x));
                assert(a.to_set().contains(x));
                let n2 = choose|n2: int| 0 <= n2 < a.len() && a[n2] == x;
                assert(n2 != 0);
                assert(a1[n2 - 1] == x);
            }
        }
        assert(a1.to_set() =~= b1.to_set());
        lemma_sorted_unique(a1, b1);
        assert(a =~= seq![a[0]] + a1);
        assert(b =~= seq![b[0]] + b1);
    }
}

/// Two sequences without duplicates that hold the same elements hold each once: they
/// have the same multiset.
pub proof fn lemma_distinct_same_multiset<A>(a: Seq<A>, b: Seq<A>)
    requires
        a.no_duplicates(),
        b.no_duplicates(),
        a.to_set() == b.to_set(),
    ensures
        a.to_multiset() == b.to_multiset(),
{
    a.lemma_multiset_has_no_duplicates();
    b.lemma_multiset_has_no_duplicates();
    a.to_multiset_ensures();
    b.to_multiset_ensures();
    assert forall|x: A| a.to_multiset().count(x) == b.to_multiset().count(x) by {
        assert(a.contains(x) <==> a.to_set().contains(x));
        assert(b.contains(x) <==> b.to_set().contains(x));
        if a.to_multiset().count(x) > 0 {
            assert(a.to_multiset().contains(x));
        }
        if b.to_multiset().count(x) > 0 {
            assert(b.to_multiset().contains(x));
        }
    }
    assert(a.to_multiset() =~= b.to_multiset());
}

} // verus!
