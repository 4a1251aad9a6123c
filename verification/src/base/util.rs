//! Small helpers.

use vstd::prelude::*;
use crate::base::vector_like::Atom;

verus! {

/// The two atoms of a pair with the smaller one first. A pair of equal atoms
/// comes back as it is, swapped.
pub fn sort_two<T: Atom>(pair: (T, T)) -> (r: (T, T))
    ensures
        r == if pair.0.code() < pair.1.code() {
            pair
        } else {
            (pair.1, pair.0)
        },
        r.0.code() <= r.1.code(),
{
    let (a, b) = pair;
    if a.precedes(b) {
        (a, b)
    } else {
        (b, a)
    }
}

/// Minus one to the power of `x`: -1 for an odd `x`, 1 for an even one.
pub fn neg_one_pow(x: usize) -> (r: i32)
    ensures
        r == if x % 2 == 1 {
            -1i32
        } else {
            1i32
        },
{
    if x % 2 == 1 {
        -1
    } else {
        1
    }
}

/// Every list of a sequence with `x` put in front.
pub open spec fn prepend_each<T>(x: T, lists: Seq<Seq<T>>) -> Seq<Seq<T>> {
    Seq::new(lists.len(), |i: int| seq![x] + lists[i])
}

/// The ways to choose `k` items of a sequence, each in the order of the
/// sequence: first those that take the first item, then those that do not.
pub open spec fn combinations_spec<T>(s: Seq<T>, k: nat) -> Seq<Seq<T>>
    decreases s.len(),
{
    if k == 0 {
        seq![Seq::empty()]
    } else if s.len() < k {
        Seq::empty()
    } else {
        prepend_each(s[0], combinations_spec(s.skip(1), (k - 1) as nat)) + combinations_spec(
            s.skip(1),
            k,
        )
    }
}

/// The items that a list of references points to.
pub open spec fn targets<T>(refs: Seq<&T>) -> Seq<T> {
    Seq::new(refs.len(), |i: int| *refs[i])
}

/// The ways to choose `k` items of a slice, by `Itertools::combinations` of
/// the crate `itertools`, which yields the choices in the lexicographic
/// order of the positions chosen. Verus does not check this. Before it
/// yields anything it lists the positions up to `k`, so a `k` beyond the
/// number of items, for which nothing could be chosen anyway, is left out.
#[verifier::external_body]
pub(crate) fn combinations_of<'a, T>(items: &'a [T], k: usize) -> (r: Vec<Vec<&'a T>>)
    requires
        k <= items@.len(),
    ensures
        r@.len() == combinations_spec(items@, k as nat).len(),
        forall|i: int| 0 <= i < r@.len() ==> targets((#[trigger] r@[i])@) == combinations_spec(items@, k as nat)[i],
{
    itertools::Itertools::combinations(items.iter(), k).collect()
}

/// The items that the references of a list point to.
pub fn from_vec_ref<T: Copy>(vec: Vec<&T>) -> (r: Vec<T>)
    ensures
        r@ == targets(vec@),
{
    let mut r: Vec<T> = Vec::new();
    let mut i: usize = 0;
    while i < vec.len()
        invariant
            i <= vec@.len(),
            r@ == targets(vec@).take(i as int),
        decreases vec@.len() - i,
    {
        r.push(*vec[i]);
        assert(r@ =~= targets(vec@).take(i + 1));
        i += 1;
    }
    assert(targets(vec@).take(i as int) =~= targets(vec@));
    r
}

} // verus!
