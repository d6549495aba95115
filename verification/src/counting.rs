//! Positions in sequences and counts of positions, with the facts that planning needs.
use vstd::prelude::*;
use vstd::set_lib::*;

verus! {

/// The first position of `x` in `s`, or -1 when `x` does not occur.
pub open spec fn first_index<K>(s: Seq<K>, x: K) -> int
    decreases s.len(),
{
    if s.len() == 0 {
        -1
    } else {
        let i = first_index(s.drop_last(), x);
        if i >= 0 {
            i
        } else if s.last() == x {
            s.len() - 1
        } else {
            -1
        }
    }
}

pub proof fn lemma_first_index<K>(s: Seq<K>, x: K)
    ensures
        -1 <= first_index(s, x) < s.len(),
        first_index(s, x) == -1 <==> !s.contains(x),
        first_index(s, x) >= 0 ==> s[first_index(s, x)] == x && forall|j: int|
            0 <= j < first_index(s, x) ==> s[j] != x,
    decreases s.len(),
{
    if s.len() > 0 {
        let init = s.drop_last();
        lemma_first_index(init, x);
        if first_index(init, x) >= 0 {
            assert(s[first_index(init, x)] == init[first_index(init, x)]);
            assert forall|j: int| 0 <= j < first_index(s, x) implies s[j] != x by {
                assert(s[j] == init[j]);
            }
        } else {
            if s.contains(x) {
                let j = choose|j: int| 0 <= j < s.len() && s[j] == x;
                if j < s.len() - 1 {
                    assert(init[j] == x);
                }
            }
            assert forall|j: int| 0 <= j < s.len() - 1 implies s[j] != x by {
                assert(s[j] == init[j]);
            }
        }
    }
}

/// The first position of `x` is any position at which it occurs with none before.
pub proof fn lemma_first_index_at<K>(s: Seq<K>, x: K, i: int)
    requires
        0 <= i < s.len(),
        s[i] == x,
        forall|j: int| 0 <= j < i ==> s[j] != x,
    ensures
        first_index(s, x) == i,
{
    lemma_first_index(s, x);
}

/// In a sequence without duplicates, the first position of `s[i]` is `i`.
pub proof fn lemma_first_index_distinct<K>(s: Seq<K>, i: int)
    requires
        s.no_duplicates(),
        0 <= i < s.len(),
    ensures
        first_index(s, s[i]) == i,
{
    lemma_first_index_at(s, s[i], i);
}

/// The number of positions below `n` that satisfy `p`.
pub open spec fn count_below(n: int, p: spec_fn(int) -> bool) -> nat
    decreases n,
{
    if n <= 0 {
        0
    } else {
        count_below(n - 1, p) + if p(n - 1) { 1nat } else { 0nat }
    }
}

pub proof fn lemma_count_le(n: int, p: spec_fn(int) -> bool)
    ensures
        count_below(n, p) <= if n < 0 { 0 } else { n },
    decreases n,
{
    if n > 0 {
        lemma_count_le(n - 1, p);
    }
}

pub proof fn lemma_count_set(n: int, p: spec_fn(int) -> bool)
    ensures
        Set::new(|i: int| 0 <= i < n && p(i)).finite(),
        Set::new(|i: int| 0 <= i < n && p(i)).len() == count_below(n, p),
    decreases n,
{
    if n <= 0 {
        assert(Set::new(|i: int| 0 <= i < n && p(i)) =~= Set::empty());
    } else {
        lemma_count_set(n - 1, p);
        let s0 = Set::new(|i: int| 0 <= i < n - 1 && p(i));
        let s1 = Set::new(|i: int| 0 <= i < n && p(i));
        if p(n - 1) {
            assert(s1 =~= s0.insert(n - 1));
        } else {
            assert(s1 =~= s0);
        }
    }
}

/// Counting is monotone in the predicate, strictly when some position satisfies only the
/// larger predicate.
pub proof fn lemma_count_mono(n: int, p: spec_fn(int) -> bool, q: spec_fn(int) -> bool)
    requires
        forall|i: int| 0 <= i < n && #[trigger] p(i) ==> q(i),
    ensures
        count_below(n, p) <= count_below(n, q),
        (exists|i: int| 0 <= i < n && #[trigger] q(i) && !p(i)) ==> count_below(n, p) < count_below(n, q),
    decreases n,
{
    if n > 0 {
        lemma_count_mono(n - 1, p, q);
        if exists|i: int| 0 <= i < n && #[trigger] q(i) && !p(i) {
            let i = choose|i: int| 0 <= i < n && #[trigger] q(i) && !p(i);
            if i < n - 1 {
                assert(exists|i: int| 0 <= i < n - 1 && #[trigger] q(i) && !p(i));
            }
        }
    }
}

/// Counting depends only on the predicate's values below `n`.
pub proof fn lemma_count_ext(n: int, p: spec_fn(int) -> bool, q: spec_fn(int) -> bool)
    requires
        forall|i: int| 0 <= i < n ==> #[trigger] p(i) == q(i),
    ensures
        count_below(n, p) == count_below(n, q),
    decreases n,
{
    if n > 0 {
        lemma_count_ext(n - 1, p, q);
    }
}

/// Positions satisfying `p` are in bijection, through `f`, with the members of `t`.
pub proof fn lemma_count_bijection<B>(n: int, p: spec_fn(int) -> bool, f: spec_fn(int) -> B, t: Set<B>)
    requires
        forall|i: int, j: int|
            0 <= i < n && 0 <= j < n && p(i) && p(j) && #[trigger] f(i) == #[trigger] f(j) ==> i == j,
        forall|i: int| 0 <= i < n && p(i) ==> t.contains(#[trigger] f(i)),
        forall|b: B| #[trigger] t.contains(b) ==> exists|i: int| 0 <= i < n && p(i) && #[trigger] f(i) == b,
    ensures
        t.finite(),
        t.len() == count_below(n, p),
{
    lemma_count_set(n, p);
    let s = Set::new(|i: int| 0 <= i < n && p(i));
    assert(s.map(f) =~= t) by {
        assert forall|b: B| t.contains(b) implies s.map(f).contains(b) by {
            let i = choose|i: int| 0 <= i < n && p(i) && #[trigger] f(i) == b;
            assert(s.contains(i));
        }
    }
    lemma_map_size(s, t, f);
}

} // verus!
