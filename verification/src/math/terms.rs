//! The model of a formal sum.
//!
//! A formal sum is modelled as a map from monomial keys to nonzero integer
//! coefficients. A list of terms stands for the sum of its terms; a list in
//! canonical form, with strictly increasing keys and no zero coefficient, is
//! the one way to write a sum down.

use vstd::prelude::*;
use crate::base::word_order::{word_less, lemma_compare_equal, lemma_less_transitive};

verus! {

/// A monomial key.
pub type Word = Seq<int>;

/// The model of a formal sum: the nonzero coefficient of each monomial that occurs.
pub type SumMap = Map<Seq<int>, int>;

/// A list of terms, each a key with a coefficient. A key may occur more than
/// once: the list stands for the sum of its terms.
pub type TermSeq = Seq<(Seq<int>, int)>;

/// Whether an integer is in the range of the coefficient type.
pub open spec fn fits(x: int) -> bool {
    i32::MIN <= x <= i32::MAX
}

/// The coefficient of `w` in a sum, zero where `w` does not occur.
pub open spec fn coeff(m: SumMap, w: Word) -> int {
    if m.contains_key(w) {
        m[w]
    } else {
        0
    }
}

/// No stored coefficient is zero.
pub open spec fn zero_free(m: SumMap) -> bool {
    forall|w: Word| m.contains_key(w) ==> #[trigger] m[w] != 0
}

/// The sum with `v` added to the coefficient of `k`; the entry is dropped when
/// its coefficient becomes zero.
pub open spec fn add_term(m: SumMap, k: Word, v: int) -> SumMap {
    if coeff(m, k) + v == 0 {
        m.remove(k)
    } else {
        m.insert(k, coeff(m, k) + v)
    }
}

/// The sum of one term with coefficient `v`, the empty sum if `v` is zero.
pub open spec fn single_map(k: Word, v: int) -> SumMap {
    add_term(Map::empty(), k, v)
}

/// The total coefficient of `w` over a list of terms.
pub open spec fn coeff_in(t: TermSeq, w: Word) -> int
    decreases t.len(),
{
    if t.len() == 0 {
        0
    } else {
        coeff_in(t.drop_last(), w) + if t.last().0 == w {
            t.last().1
        } else {
            0
        }
    }
}

/// The sum that a list of terms stands for.
pub open spec fn collect(t: TermSeq) -> SumMap {
    Map::new(|w: Word| coeff_in(t, w) != 0, |w: Word| coeff_in(t, w))
}

/// Adds the terms of a list to a sum one after the other, in exact checked
/// arithmetic: `None` as soon as a term's coefficient, or a coefficient of the
/// sum, would leave the range of the coefficient type.
pub open spec fn accumulate(acc: SumMap, t: TermSeq) -> Option<SumMap>
    decreases t.len(),
{
    if t.len() == 0 {
        Some(acc)
    } else {
        match accumulate(acc, t.drop_last()) {
            None => None,
            Some(m) => if fits(t.last().1) && fits(coeff(m, t.last().0) + t.last().1) {
                Some(add_term(m, t.last().0, t.last().1))
            } else {
                None
            },
        }
    }
}

/// A list of terms in canonical form: keys strictly increasing, no zero coefficient.
pub open spec fn canonical(t: TermSeq) -> bool {
    &&& forall|i: int, j: int| 0 <= i < j < t.len() ==> word_less(#[trigger] t[i].0, #[trigger] t[j].0)
    &&& forall|i: int| 0 <= i < t.len() ==> (#[trigger] t[i]).1 != 0
}

/// The sum of the absolute values of the coefficients of a list of terms.
pub open spec fn l1_of(t: TermSeq) -> int
    decreases t.len(),
{
    if t.len() == 0 {
        0
    } else {
        l1_of(t.drop_last()) + if t.last().1 < 0 {
            -t.last().1
        } else {
            t.last().1
        }
    }
}

/// The coefficient of a word over two lists joined is the sum over each.
pub proof fn lemma_coeff_in_concat(a: TermSeq, b: TermSeq, w: Word)
    ensures
        coeff_in(a + b, w) == coeff_in(a, w) + coeff_in(b, w),
    decreases b.len(),
{
    if b.len() == 0 {
        assert(a + b =~= a);
    } else {
        assert((a + b).drop_last() =~= a + b.drop_last());
        lemma_coeff_in_concat(a, b.drop_last(), w);
    }
}

/// The coefficient of a word over a list of one term.
pub proof fn lemma_coeff_in_one(x: (Seq<int>, int), w: Word)
    ensures
        coeff_in(seq![x], w) == if x.0 == w { x.1 } else { 0 },
{
    assert(seq![x].drop_last() =~= Seq::<(Seq<int>, int)>::empty());
    assert(coeff_in(seq![x].drop_last(), w) == 0);
}

/// Inserting a term adds its coefficient to the total of its key.
pub proof fn lemma_coeff_in_insert(t: TermSeq, i: int, x: (Seq<int>, int), w: Word)
    requires
        0 <= i <= t.len(),
    ensures
        coeff_in(t.insert(i, x), w) == coeff_in(t, w) + if x.0 == w { x.1 } else { 0 },
{
    let a = t.take(i);
    let b = t.skip(i);
    assert(t =~= a + b);
    assert(t.insert(i, x) =~= (a + seq![x]) + b);
    lemma_coeff_in_concat(a, b, w);
    lemma_coeff_in_concat(a + seq![x], b, w);
    lemma_coeff_in_concat(a, seq![x], w);
    lemma_coeff_in_one(x, w);
}

/// Removing a term takes its coefficient from the total of its key.
pub proof fn lemma_coeff_in_remove(t: TermSeq, i: int, w: Word)
    requires
        0 <= i < t.len(),
    ensures
        coeff_in(t.remove(i), w) == coeff_in(t, w) - if t[i].0 == w { t[i].1 } else { 0 },
{
    let r = t.remove(i);
    assert(r.insert(i, t[i]) =~= t);
    lemma_coeff_in_insert(r, i, t[i], w);
}

/// Replacing a term exchanges its contribution.
pub proof fn lemma_coeff_in_update(t: TermSeq, i: int, x: (Seq<int>, int), w: Word)
    requires
        0 <= i < t.len(),
    ensures
        coeff_in(t.update(i, x), w) == coeff_in(t, w) - (if t[i].0 == w { t[i].1 } else { 0 })
            + if x.0 == w { x.1 } else { 0 },
{
    let r = t.remove(i);
    assert(r.insert(i, x) =~= t.update(i, x));
    lemma_coeff_in_remove(t, i, w);
    lemma_coeff_in_insert(r, i, x, w);
}

/// In a list whose keys are pairwise distinct, the total of a key is the
/// coefficient of the one term that holds it, and zero for a key that no term holds.
pub proof fn lemma_coeff_in_distinct(t: TermSeq, w: Word)
    requires
        forall|i: int, j: int| 0 <= i < j < t.len() ==> (#[trigger] t[i]).0 != (#[trigger] t[j]).0,
    ensures
        forall|i: int| 0 <= i < t.len() && (#[trigger] t[i]).0 == w ==> coeff_in(t, w) == t[i].1,
        (forall|i: int| 0 <= i < t.len() ==> (#[trigger] t[i]).0 != w) ==> coeff_in(t, w) == 0,
    decreases t.len(),
{
    if t.len() > 0 {
        let d = t.drop_last();
        assert(forall|i: int| 0 <= i < d.len() ==> d[i] == t[i]);
        lemma_coeff_in_distinct(d, w);
        if t.last().0 == w {
            assert(forall|i: int| 0 <= i < d.len() ==> (#[trigger] d[i]).0 != w) by {
                assert forall|i: int| 0 <= i < d.len() implies (#[trigger] d[i]).0 != w by {
                    assert(t[i].0 != t[t.len() - 1].0);
                }
            }
        }
    }
}

/// The keys of a canonical list are pairwise distinct.
pub proof fn lemma_canonical_distinct(t: TermSeq)
    requires
        canonical(t),
    ensures
        forall|i: int, j: int| 0 <= i < j < t.len() ==> (#[trigger] t[i]).0 != (#[trigger] t[j]).0,
{
    assert forall|i: int, j: int| 0 <= i < j < t.len() implies (#[trigger] t[i]).0 != (
    #[trigger] t[j]).0 by {
        assert(word_less(t[i].0, t[j].0));
        lemma_compare_equal(t[i].0, t[j].0);
    }
}

/// What a canonical list says of the sum it stands for: each of its terms is
/// an entry of the sum, and the sum has no other entry.
pub proof fn lemma_collect_canonical(t: TermSeq)
    requires
        canonical(t),
    ensures
        forall|i: int| 0 <= i < t.len() ==> collect(t).contains_key((#[trigger] t[i]).0)
            && collect(t)[t[i].0] == t[i].1,
        forall|w: Word| #[trigger] collect(t).contains_key(w) ==> exists|i: int| 0 <= i < t.len() && (#[trigger] t[i]).0 == w,
        zero_free(collect(t)),
{
    lemma_canonical_distinct(t);
    assert forall|i: int| 0 <= i < t.len() implies collect(t).contains_key((#[trigger] t[i]).0)
        && collect(t)[t[i].0] == t[i].1 by {
        lemma_coeff_in_distinct(t, t[i].0);
    }
    assert forall|w: Word| #[trigger] collect(t).contains_key(w) implies exists|i: int| 0 <= i < t.len() && (#[trigger] t[i]).0 == w by {
        lemma_coeff_in_distinct(t, w);
    }
}

/// Two canonical lists that stand for the same sum are the same list.
pub proof fn lemma_canonical_unique(a: TermSeq, b: TermSeq)
    requires
        canonical(a),
        canonical(b),
        collect(a) == collect(b),
    ensures
        a == b,
    decreases a.len() + b.len(),
{
    lemma_collect_canonical(a);
    lemma_collect_canonical(b);
    if a.len() == 0 {
        if b.len() > 0 {
            assert(collect(b).contains_key(b[0].0));
            assert(collect(a).contains_key(b[0].0));
        }
        assert(a =~= b);
    } else if b.len() == 0 {
        assert(collect(a).contains_key(a[0].0));
        assert(collect(b).contains_key(a[0].0));
    } else {
        // The last terms hold the largest keys, so they coincide.
        let la = a.last();
        let lb = b.last();
        assert(a[a.len() - 1] == la);
        assert(b[b.len() - 1] == lb);
        assert(collect(b).contains_key(la.0));
        let j = choose|j: int| 0 <= j < b.len() && (#[trigger] b[j]).0 == la.0;
        assert(collect(a).contains_key(lb.0));
        let i = choose|i: int| 0 <= i < a.len() && (#[trigger] a[i]).0 == lb.0;
        if j < b.len() - 1 {
            assert(word_less(b[j].0, b[b.len() - 1].0));
            if i < a.len() - 1 {
                assert(word_less(a[i].0, a[a.len() - 1].0));
                lemma_less_transitive(la.0, lb.0, la.0);
                lemma_compare_equal(la.0, la.0);
            } else {
                lemma_compare_equal(la.0, lb.0);
            }
            assert(false);
        }
        assert(la.0 == lb.0);
        assert(la.1 == lb.1);
        assert(la == lb);
        let da = a.drop_last();
        let db = b.drop_last();
        assert(canonical(da));
        assert(canonical(db));
        assert(collect(da) =~= collect(db)) by {
            assert forall|w: Word| coeff_in(da, w) == coeff_in(db, w) by {
                assert(collect(a).contains_key(w) == collect(b).contains_key(w));
                if collect(a).contains_key(w) {
                    assert(collect(a)[w] == collect(b)[w]);
                }
                assert(coeff_in(a, w) == coeff_in(b, w));
            }
        }
        lemma_canonical_unique(da, db);
        assert(a =~= da.push(la));
        assert(b =~= db.push(lb));
    }
}

/// The sum of two sums, coefficient by coefficient.
pub open spec fn map_add(a: SumMap, b: SumMap) -> SumMap {
    Map::new(|w: Word| coeff(a, w) + coeff(b, w) != 0, |w: Word| coeff(a, w) + coeff(b, w))
}

/// A sum with every coefficient multiplied by `k`.
pub open spec fn map_scale(a: SumMap, k: int) -> SumMap {
    Map::new(|w: Word| k * coeff(a, w) != 0, |w: Word| k * coeff(a, w))
}

/// The difference of two sums, coefficient by coefficient.
pub open spec fn map_sub(a: SumMap, b: SumMap) -> SumMap {
    Map::new(|w: Word| coeff(a, w) - coeff(b, w) != 0, |w: Word| coeff(a, w) - coeff(b, w))
}

/// A sum with every coefficient divided by `d`.
pub open spec fn map_div(a: SumMap, d: int) -> SumMap {
    Map::new(|w: Word| a.contains_key(w), |w: Word| a[w] / d)
}

/// Every coefficient of the sum is in the range of the coefficient type.
pub open spec fn all_fit(m: SumMap) -> bool {
    forall|w: Word| m.contains_key(w) ==> fits(#[trigger] m[w])
}

/// `c` is a whole multiple of `d`.
pub open spec fn divisible(c: int, d: int) -> bool {
    d != 0 && c % d == 0
}

/// Every coefficient of the sum is a whole multiple of `d`.
pub open spec fn all_divisible(m: SumMap, d: int) -> bool {
    forall|w: Word| m.contains_key(w) ==> divisible(#[trigger] m[w], d)
}

/// The coefficient of a word over a list with one term put in front.
pub proof fn lemma_coeff_in_prepend(x: (Seq<int>, int), s: TermSeq, w: Word)
    ensures
        coeff_in(seq![x] + s, w) == coeff_in(s, w) + if x.0 == w { x.1 } else { 0 },
{
    lemma_coeff_in_concat(seq![x], s, w);
    lemma_coeff_in_one(x, w);
}

/// Two sums without zero entries that give every word the same coefficient
/// are the same sum.
pub proof fn lemma_same_coeffs(a: SumMap, b: SumMap)
    requires
        zero_free(a),
        zero_free(b),
        forall|w: Word| coeff(a, w) == coeff(b, w),
    ensures
        a == b,
{
    assert forall|w: Word| a.contains_key(w) == b.contains_key(w) by {
        assert(coeff(a, w) == coeff(b, w));
        if a.contains_key(w) {
            assert(a[w] != 0);
        }
        if b.contains_key(w) {
            assert(b[w] != 0);
        }
    }
    assert forall|w: Word| a.contains_key(w) implies a[w] == b[w] by {
        assert(coeff(a, w) == coeff(b, w));
    }
    assert(a =~= b);
}

/// The norm of a list with one more term.
pub proof fn lemma_l1_push(t: TermSeq, x: (Seq<int>, int))
    ensures
        l1_of(t.push(x)) == l1_of(t) + if x.1 < 0 { -x.1 } else { x.1 },
        l1_of(t) >= 0,
    decreases t.len(),
{
    assert(t.push(x).drop_last() =~= t);
    if t.len() > 0 {
        assert(t.drop_last().push(t.last()) =~= t);
        lemma_l1_push(t.drop_last(), t.last());
    }
}

/// The sum of a list of terms gives each word its total over the list, and
/// holds no zero entry.
pub proof fn lemma_collect_coeff(t: TermSeq)
    ensures
        zero_free(collect(t)),
        forall|w: Word| #[trigger] coeff(collect(t), w) == coeff_in(t, w),
{
}

/// Two lists that give every word the same total stand for the same sum.
pub proof fn lemma_collect_same(a: TermSeq, b: TermSeq)
    requires
        forall|w: Word| coeff_in(a, w) == coeff_in(b, w),
    ensures
        collect(a) == collect(b),
{
    lemma_collect_coeff(a);
    lemma_collect_coeff(b);
    assert forall|w: Word| coeff(collect(a), w) == coeff(collect(b), w) by {
        assert(coeff_in(a, w) == coeff_in(b, w));
    }
    lemma_same_coeffs(collect(a), collect(b));
}

/// Adds `c` times `part` to `acc` in exact checked arithmetic: `None` if a
/// coefficient of the part, of its multiple or of the new sum is out of range.
pub open spec fn expand_step(acc: SumMap, part: SumMap, c: int) -> Option<SumMap> {
    if all_fit(part) && all_fit(map_scale(part, c)) && all_fit(map_add(acc, map_scale(part, c))) {
        Some(map_add(acc, map_scale(part, c)))
    } else {
        None
    }
}

/// No coefficient of the sum is greater than `b` or less than `-b`.
pub open spec fn bounded(m: SumMap, b: int) -> bool {
    forall|w: Word| -b <= #[trigger] coeff(m, w) <= b
}

/// Sums and differences of bounded sums are bounded by the sum of the bounds.
pub proof fn lemma_bounded_ops(a: SumMap, b: SumMap, x: int, y: int)
    requires
        bounded(a, x),
        bounded(b, y),
    ensures
        bounded(map_add(a, b), x + y),
        bounded(map_sub(a, b), x + y),
        bounded(map_scale(a, 1), x),
        bounded(map_scale(a, -1), x),
        0 <= x + y <= i32::MAX ==> all_fit(map_add(a, b)) && all_fit(map_sub(a, b)),
        0 <= x <= i32::MAX ==> all_fit(map_scale(a, 1)) && all_fit(map_scale(a, -1)),
{
    assert forall|w: Word| -(x + y) <= #[trigger] coeff(map_add(a, b), w) <= x + y by {
        assert(-x <= coeff(a, w) <= x);
        assert(-y <= coeff(b, w) <= y);
    }
    assert forall|w: Word| -(x + y) <= #[trigger] coeff(map_sub(a, b), w) <= x + y by {
        assert(-x <= coeff(a, w) <= x);
        assert(-y <= coeff(b, w) <= y);
    }
    assert forall|w: Word| -x <= #[trigger] coeff(map_scale(a, 1), w) <= x by {
        assert(-x <= coeff(a, w) <= x);
    }
    assert forall|w: Word| -x <= #[trigger] coeff(map_scale(a, -1), w) <= x by {
        assert(-x <= coeff(a, w) <= x);
    }
    if 0 <= x + y <= i32::MAX {
        assert forall|w: Word| map_add(a, b).contains_key(w) implies fits(#[trigger] map_add(a, b)[w]) by {
            assert(-(x + y) <= coeff(map_add(a, b), w) <= x + y);
        }
        assert forall|w: Word| map_sub(a, b).contains_key(w) implies fits(#[trigger] map_sub(a, b)[w]) by {
            assert(-(x + y) <= coeff(map_sub(a, b), w) <= x + y);
        }
    }
    if 0 <= x <= i32::MAX {
        assert forall|w: Word| map_scale(a, 1).contains_key(w) implies fits(#[trigger] map_scale(a, 1)[w]) by {
            assert(-x <= coeff(map_scale(a, 1), w) <= x);
        }
        assert forall|w: Word| map_scale(a, -1).contains_key(w) implies fits(#[trigger] map_scale(a, -1)[w]) by {
            assert(-x <= coeff(map_scale(a, -1), w) <= x);
        }
    }
}

} // verus!
