use vstd::prelude::*;

use crate::counting::{first_index, lemma_first_index, lemma_first_index_at};

verus! {

/// Identifiers of query variables and relations.
///
/// Identifiers are compared by their views: two identifiers name the same variable (or
/// relation) exactly when their views are equal.
pub trait Ident: Copy + View {
    fn same(&self, other: &Self) -> (r: bool)
        ensures
            r == (self@ == other@),
    ;
}

impl Ident for char {
    fn same(&self, other: &Self) -> (r: bool) {
        *self == *other
    }
}

impl Ident for u32 {
    fn same(&self, other: &Self) -> (r: bool) {
        *self == *other
    }
}

impl Ident for u64 {
    fn same(&self, other: &Self) -> (r: bool) {
        *self == *other
    }
}

impl Ident for usize {
    fn same(&self, other: &Self) -> (r: bool) {
        *self == *other
    }
}

/// Calls `<str as PartialEq>::eq`, which compares two string slices by their contents;
/// the contract claims that the result is the equality of their character sequences.
#[verifier::external_body]
fn str_eq(a: &str, b: &str) -> (r: bool)
    ensures
        r == (a@ == b@),
{
    a == b
}

impl Ident for &'static str {
    fn same(&self, other: &Self) -> (r: bool) {
        str_eq(*self, *other)
    }
}

/// The views of a sequence of identifiers.
pub open spec fn views<T: View>(s: Seq<T>) -> Seq<T::V> {
    s.map_values(|x: T| x@)
}

/// Finds the first position of `x` in `s`, comparing by view.
pub fn find<T: Ident>(s: &[T], x: &T) -> (r: Option<usize>)
    ensures
        match r {
            Some(i) => i < s@.len() && s@[i as int]@ == x@ && first_index(views(s@), x@) == i,
            None => !views(s@).contains(x@) && first_index(views(s@), x@) == -1,
        },
{
    proof {
        lemma_first_index(views(s@), x@);
    }
    let mut i: usize = 0;
    while i < s.len()
        invariant
            i <= s@.len(),
            forall|j: int| 0 <= j < i ==> s@[j]@ != x@,
        decreases s@.len() - i,
    {
        if s[i].same(x) {
            proof {
                assert(views(s@)[i as int] == x@);
                assert forall|j: int| 0 <= j < i implies views(s@)[j] != x@ by {
                    assert(views(s@)[j] == s@[j]@);
                }
                lemma_first_index_at(views(s@), x@, i as int);
            }
            return Some(i);
        }
        i = i + 1;
    }
    proof {
        if views(s@).contains(x@) {
            let j = choose|j: int| 0 <= j < views(s@).len() && views(s@)[j] == x@;
            assert(s@[j]@ == x@);
        }
    }
    None
}

} // verus!
