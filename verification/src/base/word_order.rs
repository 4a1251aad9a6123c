//! The lexicographic order on words of integer codes.
//!
//! Every monomial is ordered through its sequence of integer codes. A proper
//! prefix is smaller than the word it begins; otherwise the first position at
//! which two words differ decides.

use vstd::prelude::*;

verus! {

/// How one word stands to another.
#[derive(Clone, Copy, PartialEq, Eq, Debug, Structural)]
pub enum WordOrder {
    Less,
    Equal,
    Greater,
}

/// The first position at or after `from` at which the two words differ, or at
/// which the shorter one ends.
pub open spec fn first_difference(a: Seq<int>, b: Seq<int>, from: int) -> int
    decreases a.len() - from,
{
    if 0 <= from < a.len() && from < b.len() && a[from] == b[from] {
        first_difference(a, b, from + 1)
    } else {
        from
    }
}

/// The lexicographic comparison of two words.
pub open spec fn word_compare(a: Seq<int>, b: Seq<int>) -> WordOrder {
    let k = first_difference(a, b, 0);
    if k < a.len() && k < b.len() {
        if a[k] < b[k] {
            WordOrder::Less
        } else {
            WordOrder::Greater
        }
    } else if a.len() < b.len() {
        WordOrder::Less
    } else if a.len() == b.len() {
        WordOrder::Equal
    } else {
        WordOrder::Greater
    }
}

/// `a` comes strictly before `b`.
pub open spec fn word_less(a: Seq<int>, b: Seq<int>) -> bool {
    word_compare(a, b) == WordOrder::Less
}

/// `a` comes before `b` or is `b`.
pub open spec fn word_less_eq(a: Seq<int>, b: Seq<int>) -> bool {
    word_compare(a, b) != WordOrder::Greater
}

/// The two words agree on the positions `from..to`.
pub open spec fn agree_on(a: Seq<int>, b: Seq<int>, from: int, to: int) -> bool {
    forall|j: int| from <= j < to ==> a[j] == b[j]
}

/// What `first_difference` finds: the words agree up to it, and at it they
/// differ unless one of them has ended.
pub proof fn lemma_first_difference(a: Seq<int>, b: Seq<int>, from: int)
    requires
        0 <= from <= a.len(),
        from <= b.len(),
    ensures
        from <= first_difference(a, b, from) <= a.len(),
        first_difference(a, b, from) <= b.len(),
        agree_on(a, b, from, first_difference(a, b, from)),
        first_difference(a, b, from) < a.len() && first_difference(a, b, from) < b.len()
            ==> a[first_difference(a, b, from)] != b[first_difference(a, b, from)],
    decreases a.len() - from,
{
    if from < a.len() && from < b.len() && a[from] == b[from] {
        lemma_first_difference(a, b, from + 1);
    }
}

/// A position up to which the words agree, and at which they differ or one
/// ends, is the first difference.
pub proof fn lemma_first_difference_is(a: Seq<int>, b: Seq<int>, from: int, k: int)
    requires
        0 <= from <= k <= a.len(),
        k <= b.len(),
        agree_on(a, b, from, k),
        k < a.len() && k < b.len() ==> a[k] != b[k],
    ensures
        first_difference(a, b, from) == k,
    decreases k - from,
{
    if from < k {
        lemma_first_difference_is(a, b, from + 1, k);
    }
}

/// Two words compare equal exactly when they are the same word.
pub proof fn lemma_compare_equal(a: Seq<int>, b: Seq<int>)
    ensures
        word_compare(a, b) == WordOrder::Equal <==> a == b,
{
    lemma_first_difference(a, b, 0);
    if word_compare(a, b) == WordOrder::Equal {
        assert(a =~= b);
    }
    if a == b {
        lemma_first_difference_is(a, b, 0, a.len() as int);
    }
}

/// Swapping the arguments mirrors the comparison.
pub proof fn lemma_compare_mirror(a: Seq<int>, b: Seq<int>)
    ensures
        word_compare(a, b) == WordOrder::Less <==> word_compare(b, a) == WordOrder::Greater,
        word_compare(a, b) == WordOrder::Greater <==> word_compare(b, a) == WordOrder::Less,
        word_compare(a, b) == WordOrder::Equal <==> word_compare(b, a) == WordOrder::Equal,
{
    lemma_first_difference(a, b, 0);
    let k = first_difference(a, b, 0);
    assert(agree_on(b, a, 0, k));
    lemma_first_difference_is(b, a, 0, k);
}

/// The strict order is transitive.
pub proof fn lemma_less_transitive(a: Seq<int>, b: Seq<int>, c: Seq<int>)
    requires
        word_less(a, b),
        word_less(b, c),
    ensures
        word_less(a, c),
{
    lemma_first_difference(a, b, 0);
    lemma_first_difference(b, c, 0);
    let k1 = first_difference(a, b, 0);
    let k2 = first_difference(b, c, 0);
    let k = if k1 <= k2 { k1 } else { k2 };
    assert(agree_on(a, c, 0, k));
    lemma_first_difference_is(a, c, 0, k);
}

/// A word is less than another exactly when, at their first difference, it
/// has ended or holds the smaller code.
pub proof fn lemma_less_by_position(a: Seq<int>, b: Seq<int>, k: int)
    requires
        0 <= k <= a.len(),
        k <= b.len(),
        agree_on(a, b, 0, k),
        k < b.len(),
        k == a.len() || a[k] < b[k],
    ensures
        word_less(a, b),
{
    lemma_first_difference_is(a, b, 0, k);
}

/// Where a word is less than another: a position up to which they agree and
/// at which the first has ended or holds the smaller code.
pub proof fn lemma_less_witness(a: Seq<int>, b: Seq<int>) -> (d: int)
    requires
        word_less(a, b),
    ensures
        0 <= d <= a.len(),
        d < b.len(),
        agree_on(a, b, 0, d),
        d == a.len() || a[d] < b[d],
{
    lemma_first_difference(a, b, 0);
    first_difference(a, b, 0)
}

/// A word is not less than itself, and of two words at most one is less
/// than the other.
pub proof fn lemma_less_asymmetric(a: Seq<int>, b: Seq<int>)
    ensures
        !(word_less(a, b) && word_less(b, a)),
        !word_less(a, a),
{
    lemma_compare_mirror(a, b);
    lemma_compare_equal(a, a);
}

/// A beginning of a word is not greater than the word.
pub proof fn lemma_prefix_less_eq(a: Seq<int>, b: Seq<int>)
    requires
        a.len() <= b.len(),
        agree_on(a, b, 0, a.len() as int),
    ensures
        word_less_eq(a, b),
        a.len() < b.len() ==> word_less(a, b),
{
    lemma_first_difference_is(a, b, 0, a.len() as int);
}

/// The order is total: a word is less than another, equal to it, or greater.
pub proof fn lemma_order_total(a: Seq<int>, b: Seq<int>)
    ensures
        word_less(a, b) || a == b || word_less(b, a),
        word_less_eq(a, b) <==> (word_less(a, b) || a == b),
        word_less_eq(a, b) <==> !word_less(b, a),
{
    lemma_compare_mirror(a, b);
    lemma_compare_equal(a, b);
}

/// The order with equality is transitive, strictly so if one step is strict.
pub proof fn lemma_less_eq_transitive(a: Seq<int>, b: Seq<int>, c: Seq<int>)
    requires
        word_less_eq(a, b),
        word_less_eq(b, c),
    ensures
        word_less_eq(a, c),
        word_less(a, b) || word_less(b, c) ==> word_less(a, c),
{
    lemma_order_total(a, b);
    lemma_order_total(b, c);
    lemma_order_total(a, c);
    if word_less(a, b) && word_less(b, c) {
        lemma_less_transitive(a, b, c);
    }
}

} // verus!
