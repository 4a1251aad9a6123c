//! The shuffle product of words.
//!
//! The shuffle product of two words is the sum of all their interleavings:
//! the words that hold the letters of both and keep the order of each.

use vstd::prelude::*;
use crate::base::vector_like::{Atom, VectorLike, codes};
use crate::math::linear::{ArithmeticError, Linear, LinearMonom, term_list, lemma_collect_push};
use crate::math::lyndon::{concat_all, lemma_concat_last};
use crate::math::terms::{canonical, map_scale, expand_step, lemma_coeff_in_prepend,
    lemma_coeff_in_distinct, lemma_canonical_distinct,Word, SumMap, TermSeq, coeff, coeff_in, collect, map_add, all_fit, fits,
    single_map, lemma_coeff_in_concat, lemma_coeff_in_one, lemma_collect_same,
    lemma_collect_coeff, lemma_same_coeffs};

verus! {

/// Every word of the list with the letter `x` appended.
pub open spec fn push_each(ws: Seq<Word>, x: int) -> Seq<Word> {
    Seq::new(ws.len(), |i: int| ws[i].push(x))
}

/// The interleavings of `u` and `v`, each listed once for every way of
/// obtaining it: first those that end with the last letter of `v`, then
/// those that end with the last letter of `u`.
pub open spec fn interleavings(u: Word, v: Word) -> Seq<Word>
    decreases u.len() + v.len(),
{
    if u.len() == 0 {
        seq![v]
    } else if v.len() == 0 {
        seq![u]
    } else {
        push_each(interleavings(u, v.drop_last()), v.last()) + push_each(
            interleavings(u.drop_last(), v),
            u.last(),
        )
    }
}

/// The list of terms that gives each word of the list the coefficient 1.
pub open spec fn unit_terms(ws: Seq<Word>) -> TermSeq {
    Seq::new(ws.len(), |i: int| (ws[i], 1int))
}

/// The shuffle product of two words as a sum: every interleaving with the
/// coefficient 1, equal interleavings added up. The product of two empty
/// words is the empty sum.
pub open spec fn shuffle_map(u: Word, v: Word) -> SumMap {
    if u.len() == 0 && v.len() == 0 {
        Map::empty()
    } else {
        collect(unit_terms(interleavings(u, v)))
    }
}

/// The coefficient that `w` has in a sum after `x` was appended to every
/// word of the sum.
pub open spec fn pushed_coeff(m: SumMap, x: int, w: Word) -> int {
    if w.len() > 0 && w.last() == x {
        coeff(m, w.drop_last())
    } else {
        0
    }
}

/// The sum with `x` appended to every word.
pub open spec fn map_push(m: SumMap, x: int) -> SumMap {
    Map::new(|w: Word| pushed_coeff(m, x, w) != 0, |w: Word| pushed_coeff(m, x, w))
}

/// The number of ways to choose `k` things out of `n`.
pub open spec fn binomial(n: nat, k: nat) -> nat
    decreases n + k,
{
    if k == 0 {
        1
    } else if n == 0 {
        0
    } else {
        binomial((n - 1) as nat, (k - 1) as nat) + binomial((n - 1) as nat, k)
    }
}

/// How often `w` occurs in a list of words.
pub open spec fn occurrences(ws: Seq<Word>, w: Word) -> int {
    coeff_in(unit_terms(ws), w)
}

/// Occurrences in two lists joined add up.
pub proof fn lemma_occurrences_concat(a: Seq<Word>, b: Seq<Word>, w: Word)
    ensures
        occurrences(a + b, w) == occurrences(a, w) + occurrences(b, w),
{
    assert(unit_terms(a + b) =~= unit_terms(a) + unit_terms(b));
    lemma_coeff_in_concat(unit_terms(a), unit_terms(b), w);
}

/// A word occurs in a list at most as often as the list is long, and never
/// a negative number of times.
pub proof fn lemma_occurrences_bounds(ws: Seq<Word>, w: Word)
    ensures
        0 <= occurrences(ws, w) <= ws.len(),
    decreases ws.len(),
{
    if ws.len() > 0 {
        assert(unit_terms(ws).drop_last() =~= unit_terms(ws.drop_last()));
        lemma_occurrences_bounds(ws.drop_last(), w);
    }
}

/// A word occurs once in the list that holds it alone.
pub proof fn lemma_occurrences_one(x: Word, w: Word)
    ensures
        occurrences(seq![x], w) == if x == w { 1int } else { 0int },
{
    assert(unit_terms(seq![x]) =~= seq![(x, 1int)]);
    lemma_coeff_in_one((x, 1int), w);
}

/// Appending a letter to every word of a list: a word occurs afterwards as
/// often as the word without its last letter did, if that letter is the one
/// appended, and not at all otherwise.
pub proof fn lemma_occurrences_push_each(ws: Seq<Word>, x: int, w: Word)
    ensures
        occurrences(push_each(ws, x), w) == if w.len() > 0 && w.last() == x {
            occurrences(ws, w.drop_last())
        } else {
            0
        },
    decreases ws.len(),
{
    if ws.len() > 0 {
        let d = ws.drop_last();
        assert(unit_terms(push_each(ws, x)).drop_last() =~= unit_terms(push_each(d, x)));
        assert(unit_terms(ws).drop_last() =~= unit_terms(d));
        lemma_occurrences_push_each(d, x, w);
        let l = ws.last();
        assert(unit_terms(push_each(ws, x)).last().0 == l.push(x));
        if l.push(x) == w {
            assert(w.drop_last() =~= l);
            assert(w.last() == x);
        }
        if w.len() > 0 && w.last() == x && l == w.drop_last() {
            assert(l.push(x) =~= w);
        }
    }
}

/// How the occurrences in the interleavings of two nonempty words come from
/// those of the shorter pairs.
pub proof fn lemma_interleavings_step(u: Word, v: Word, w: Word)
    requires
        u.len() > 0,
        v.len() > 0,
    ensures
        occurrences(interleavings(u, v), w) == (if w.len() > 0 && w.last() == v.last() {
            occurrences(interleavings(u, v.drop_last()), w.drop_last())
        } else {
            0
        }) + (if w.len() > 0 && w.last() == u.last() {
            occurrences(interleavings(u.drop_last(), v), w.drop_last())
        } else {
            0
        }),
{
    let a = push_each(interleavings(u, v.drop_last()), v.last());
    let b = push_each(interleavings(u.drop_last(), v), u.last());
    lemma_occurrences_concat(a, b, w);
    lemma_occurrences_push_each(interleavings(u, v.drop_last()), v.last(), w);
    lemma_occurrences_push_each(interleavings(u.drop_last(), v), u.last(), w);
}

/// A word is an interleaving of `u` and `v` as often as it is one of `v` and `u`.
pub proof fn lemma_occurrences_commute(u: Word, v: Word, w: Word)
    ensures
        occurrences(interleavings(u, v), w) == occurrences(interleavings(v, u), w),
    decreases u.len() + v.len(),
{
    if u.len() == 0 || v.len() == 0 {
        if u.len() == 0 && v.len() == 0 {
            assert(u =~= v);
        }
    } else {
        lemma_interleavings_step(u, v, w);
        lemma_interleavings_step(v, u, w);
        lemma_occurrences_commute(u, v.drop_last(), w.drop_last());
        lemma_occurrences_commute(u.drop_last(), v, w.drop_last());
    }
}

/// The shuffle product does not depend on the order of its factors.
pub proof fn lemma_shuffle_commutative(u: Word, v: Word)
    ensures
        shuffle_map(u, v) == shuffle_map(v, u),
{
    if !(u.len() == 0 && v.len() == 0) {
        assert forall|w: Word| coeff_in(unit_terms(interleavings(u, v)), w) == coeff_in(unit_terms(interleavings(v, u)), w) by {
            lemma_occurrences_commute(u, v, w);
        }
        lemma_collect_same(unit_terms(interleavings(u, v)), unit_terms(interleavings(v, u)));
    }
}

/// The binomial coefficient of `n` over `n` is 1.
pub proof fn lemma_binomial_full(n: nat)
    ensures
        binomial(n, n) == 1,
        forall|k: nat| k > n ==> binomial(n, k) == 0,
    decreases n,
{
    if n > 0 {
        lemma_binomial_full((n - 1) as nat);
        lemma_binomial_above((n - 1) as nat, n);
    }
    assert forall|k: nat| k > n implies binomial(n, k) == 0 by {
        lemma_binomial_above(n, k);
    }
}

/// There is no way to choose more than there is.
pub proof fn lemma_binomial_above(n: nat, k: nat)
    requires
        k > n,
    ensures
        binomial(n, k) == 0,
    decreases n,
{
    if n > 0 {
        lemma_binomial_above((n - 1) as nat, (k - 1) as nat);
        lemma_binomial_above((n - 1) as nat, k);
    }
}

/// Two words of lengths `p` and `q` have `binomial(p + q, p)` interleavings,
/// counted with multiplicity, and each interleaving has `p + q` letters.
pub proof fn lemma_interleavings_count(u: Word, v: Word)
    ensures
        interleavings(u, v).len() == binomial(u.len() + v.len(), u.len()),
        forall|i: int| 0 <= i < interleavings(u, v).len() ==> (#[trigger] interleavings(u, v)[i]).len() == u.len() + v.len(),
    decreases u.len() + v.len(),
{
    if u.len() == 0 {
    } else if v.len() == 0 {
        lemma_binomial_full(u.len());
    } else {
        lemma_interleavings_count(u, v.drop_last());
        lemma_interleavings_count(u.drop_last(), v);
        let a = interleavings(u, v.drop_last());
        let b = interleavings(u.drop_last(), v);
        let all = interleavings(u, v);
        assert forall|i: int| 0 <= i < all.len() implies (#[trigger] all[i]).len() == u.len() + v.len() by {
            if i < a.len() {
                assert(all[i] == a[i].push(v.last()));
            } else {
                assert(all[i] == b[i - a.len()].push(u.last()));
            }
        }
    }
}

/// The coefficients of a shuffle product: how often each word is an
/// interleaving. None is negative.
pub proof fn lemma_shuffle_coeff(u: Word, v: Word, w: Word)
    requires
        u.len() + v.len() > 0,
    ensures
        coeff(shuffle_map(u, v), w) == occurrences(interleavings(u, v), w),
        coeff(shuffle_map(u, v), w) >= 0,
{
    lemma_occurrences_bounds(interleavings(u, v), w);
}

/// The shuffle product of two nonempty words, from the products of the
/// shorter pairs: append the last letter of `v` to the product of `u` and `v`
/// without it, the last letter of `u` to the product of `u` without it and
/// `v`, and add.
pub proof fn lemma_shuffle_recursion(u: Word, v: Word)
    requires
        u.len() > 0,
        v.len() > 0,
    ensures
        shuffle_map(u, v) == map_add(
            map_push(shuffle_map(u, v.drop_last()), v.last()),
            map_push(shuffle_map(u.drop_last(), v), u.last()),
        ),
{
    let lhs = shuffle_map(u, v);
    let rhs = map_add(
        map_push(shuffle_map(u, v.drop_last()), v.last()),
        map_push(shuffle_map(u.drop_last(), v), u.last()),
    );
    assert forall|w: Word| coeff(lhs, w) == coeff(rhs, w) by {
        lemma_interleavings_step(u, v, w);
        lemma_shuffle_coeff(u, v, w);
        lemma_shuffle_coeff(u, v.drop_last(), w.drop_last());
        lemma_shuffle_coeff(u.drop_last(), v, w.drop_last());
    }
    lemma_collect_coeff(unit_terms(interleavings(u, v)));
    lemma_same_coeffs(lhs, rhs);
}

/// The shuffle product with the empty word is the other word alone.
pub proof fn lemma_shuffle_with_empty(u: Word, v: Word)
    requires
        u.len() == 0 || v.len() == 0,
        u.len() + v.len() > 0,
    ensures
        u.len() == 0 ==> shuffle_map(u, v) == single_map(v, 1),
        v.len() == 0 ==> shuffle_map(u, v) == single_map(u, 1),
{
    let x = if u.len() == 0 { v } else { u };
    assert(interleavings(u, v) == seq![x]);
    assert forall|w: Word| coeff(shuffle_map(u, v), w) == coeff(single_map(x, 1), w) by {
        lemma_occurrences_one(x, w);
    }
    lemma_collect_coeff(unit_terms(interleavings(u, v)));
    lemma_same_coeffs(shuffle_map(u, v), single_map(x, 1));
}

/// If a shorter product has a coefficient out of range, so has the product.
pub proof fn lemma_shuffle_overflow_grows(u: Word, v: Word)
    requires
        u.len() > 0,
        v.len() > 0,
        !all_fit(shuffle_map(u, v.drop_last())) || !all_fit(shuffle_map(u.drop_last(), v)),
    ensures
        !all_fit(shuffle_map(u, v)),
{
    let (m, x) = if !all_fit(shuffle_map(u, v.drop_last())) {
        (shuffle_map(u, v.drop_last()), v.last())
    } else {
        (shuffle_map(u.drop_last(), v), u.last())
    };
    let w0 = choose|w: Word| m.contains_key(w) && !fits(#[trigger] m[w]);
    let w = w0.push(x);
    assert(w.drop_last() =~= w0);
    lemma_interleavings_step(u, v, w);
    lemma_shuffle_coeff(u, v, w);
    lemma_shuffle_coeff(u, v.drop_last(), w0);
    lemma_shuffle_coeff(u.drop_last(), v, w0);
    assert(coeff(shuffle_map(u, v), w) >= m[w0]);
    assert(m[w0] > i32::MAX);
    assert(shuffle_map(u, v).contains_key(w));
    assert(!fits(shuffle_map(u, v)[w]));
}

/// Every letter of the word is in the range from `lo` to `hi`.
pub open spec fn letters_in(w: Word, lo: int, hi: int) -> bool {
    forall|i: int| 0 <= i < w.len() ==> lo <= #[trigger] w[i] <= hi
}

/// Every letter of every word of the list is in the range from `lo` to `hi`.
pub open spec fn all_letters_in(ws: Seq<Word>, lo: int, hi: int) -> bool {
    forall|j: int| 0 <= j < ws.len() ==> letters_in(#[trigger] ws[j], lo, hi)
}

/// Every word of the sum has `len` letters, all in the range from `lo` to `hi`.
pub open spec fn keys_within(m: SumMap, len: int, lo: int, hi: int) -> bool {
    forall|w: Word| #[trigger] m.contains_key(w) ==> w.len() == len && letters_in(w, lo, hi)
}

/// The letters of an interleaving are letters of the two words.
pub proof fn lemma_interleavings_letters(u: Word, v: Word, lo: int, hi: int)
    requires
        letters_in(u, lo, hi),
        letters_in(v, lo, hi),
    ensures
        all_letters_in(interleavings(u, v), lo, hi),
    decreases u.len() + v.len(),
{
    if u.len() == 0 {
    } else if v.len() == 0 {
    } else {
        lemma_interleavings_letters(u, v.drop_last(), lo, hi);
        lemma_interleavings_letters(u.drop_last(), v, lo, hi);
        let a = interleavings(u, v.drop_last());
        let b = interleavings(u.drop_last(), v);
        let all = interleavings(u, v);
        assert forall|j: int| 0 <= j < all.len() implies letters_in(#[trigger] all[j], lo, hi) by {
            if j < a.len() {
                assert(all[j] == a[j].push(v.last()));
                assert(letters_in(a[j], lo, hi));
            } else {
                assert(all[j] == b[j - a.len()].push(u.last()));
                assert(letters_in(b[j - a.len()], lo, hi));
            }
        }
    }
}

/// A word that occurs in a list is one of its words.
pub proof fn lemma_occurs_somewhere(ws: Seq<Word>, w: Word) -> (j: int)
    requires
        occurrences(ws, w) != 0,
    ensures
        0 <= j < ws.len(),
        ws[j] == w,
    decreases ws.len(),
{
    if ws.last() == w {
        ws.len() - 1
    } else {
        assert(unit_terms(ws).drop_last() =~= unit_terms(ws.drop_last()));
        lemma_occurs_somewhere(ws.drop_last(), w)
    }
}

/// Every word of a shuffle product has the letters of both factors: as many
/// as they have together, and no other.
pub proof fn lemma_shuffle_keys(u: Word, v: Word, lo: int, hi: int)
    requires
        letters_in(u, lo, hi),
        letters_in(v, lo, hi),
    ensures
        keys_within(shuffle_map(u, v), (u.len() + v.len()) as int, lo, hi),
{
    lemma_interleavings_letters(u, v, lo, hi);
    lemma_interleavings_count(u, v);
    assert forall|w: Word| #[trigger] shuffle_map(u, v).contains_key(w) implies w.len() == u.len() + v.len() && letters_in(w, lo, hi) by {
        let j = lemma_occurs_somewhere(interleavings(u, v), w);
        assert(letters_in(interleavings(u, v)[j], lo, hi));
    }
}

/// The word `w` is a rearrangement of `v`: it has the letters of `v`, each
/// as often as `v` has it.
pub open spec fn rearranges(w: Word, v: Word) -> bool {
    w.to_multiset() == v.to_multiset()
}

/// Every word of the sum is a rearrangement of `v`.
pub open spec fn keys_rearrange(m: SumMap, v: Word) -> bool {
    forall|w: Word| #[trigger] m.contains_key(w) ==> rearranges(w, v)
}

/// Putting a letter at the end of two words that are rearrangements of each
/// other, and a word after them, keeps them so.
pub proof fn lemma_rearranges_extend(w: Word, v: Word, x: int, tail: Word)
    requires
        rearranges(w, v),
    ensures
        rearranges(w.push(x), v.push(x)),
        rearranges(w + tail, v + tail),
{
    vstd::seq_lib::to_multiset_build(w, x);
    vstd::seq_lib::to_multiset_build(v, x);
    vstd::seq_lib::lemma_multiset_commutative(w, tail);
    vstd::seq_lib::lemma_multiset_commutative(v, tail);
}

/// Every interleaving of two words is a rearrangement of the one word
/// written after the other.
pub proof fn lemma_interleavings_rearrange(u: Word, v: Word)
    ensures
        forall|j: int| 0 <= j < interleavings(u, v).len() ==> rearranges(#[trigger] interleavings(u, v)[j], u + v),
    decreases u.len() + v.len(),
{
    if u.len() == 0 {
        assert(u + v =~= v);
    } else if v.len() == 0 {
        assert(u + v =~= u);
    } else {
        lemma_interleavings_rearrange(u, v.drop_last());
        lemma_interleavings_rearrange(u.drop_last(), v);
        let a = interleavings(u, v.drop_last());
        let b = interleavings(u.drop_last(), v);
        let all = interleavings(u, v);
        assert forall|j: int| 0 <= j < all.len() implies rearranges(#[trigger] all[j], u + v) by {
            if j < a.len() {
                assert(all[j] == a[j].push(v.last()));
                lemma_rearranges_extend(a[j], u + v.drop_last(), v.last(), Seq::empty());
                assert((u + v.drop_last()).push(v.last()) =~= u + v);
            } else {
                let i = j - a.len();
                assert(all[j] == b[i].push(u.last()));
                let x = u.last();
                let d = u.drop_last();
                vstd::seq_lib::to_multiset_build(b[i], x);
                vstd::seq_lib::to_multiset_build(d, x);
                vstd::seq_lib::lemma_multiset_commutative(d, v);
                vstd::seq_lib::lemma_multiset_commutative(u, v);
                assert(d.push(x) =~= u);
                assert(d.to_multiset().add(v.to_multiset()).insert(x) =~= d.to_multiset().insert(x).add(
                    v.to_multiset(),
                ));
            }
        }
    }
}

/// Every word of a shuffle product is a rearrangement of the one factor
/// written after the other.
pub proof fn lemma_shuffle_rearranges(u: Word, v: Word)
    ensures
        keys_rearrange(shuffle_map(u, v), u + v),
{
    lemma_interleavings_rearrange(u, v);
    assert forall|w: Word| #[trigger] shuffle_map(u, v).contains_key(w) implies rearranges(w, u + v) by {
        let j = lemma_occurs_somewhere(interleavings(u, v), w);
    }
}

/// Two lists of words, a letter appended to each word of either, joined.
pub open spec fn step_words(l1: Seq<Word>, b: int, l2: Seq<Word>, a: int) -> Seq<Word> {
    push_each(l1, b) + push_each(l2, a)
}

/// One step of the shuffle product on lists of words: lists that add up to
/// the two shorter products give, extended and joined, a list that adds up
/// to the product.
pub proof fn lemma_shuffle_step(u: Word, v: Word, l1: Seq<Word>, l2: Seq<Word>)
    requires
        u.len() > 0,
        v.len() > 0,
        collect(unit_terms(l1)) == shuffle_map(u, v.drop_last()),
        collect(unit_terms(l2)) == shuffle_map(u.drop_last(), v),
    ensures
        collect(unit_terms(step_words(l1, v.last(), l2, u.last()))) == shuffle_map(u, v),
{
    let all = step_words(l1, v.last(), l2, u.last());
    lemma_collect_coeff(unit_terms(l1));
    lemma_collect_coeff(unit_terms(l2));
    assert forall|w: Word| coeff_in(unit_terms(all), w) == coeff_in(unit_terms(interleavings(u, v)), w) by {
        lemma_occurrences_concat(push_each(l1, v.last()), push_each(l2, u.last()), w);
        lemma_occurrences_push_each(l1, v.last(), w);
        lemma_occurrences_push_each(l2, u.last(), w);
        lemma_interleavings_step(u, v, w);
        lemma_shuffle_coeff(u, v.drop_last(), w.drop_last());
        lemma_shuffle_coeff(u.drop_last(), v, w.drop_last());
        assert(coeff(collect(unit_terms(l1)), w.drop_last()) == coeff_in(unit_terms(l1), w.drop_last()));
        assert(coeff(collect(unit_terms(l2)), w.drop_last()) == coeff_in(unit_terms(l2), w.drop_last()));
    }
    lemma_collect_same(unit_terms(all), unit_terms(interleavings(u, v)));
}

/// The monomial that holds the given atoms.
fn make_word<T: Atom, M: LinearMonom + VectorLike<T>>(items: &Vec<T>) -> (r: M)
    ensures
        r.key() == codes(items@),
{
    M::from_slice(items.as_slice())
}

/// Adds a word with the coefficient 1 to the sum of a list of words.
fn add_word<M: LinearMonom>(ret: &mut Linear<M>, word: M, Ghost(done): Ghost<Seq<Word>>)
    requires
        old(ret).wf(),
        old(ret)@ == collect(unit_terms(done)),
        old(ret).labels() == Map::<Seq<int>, int>::empty(),
        done.len() < 1000,
    ensures
        final(ret).wf(),
        final(ret)@ == collect(unit_terms(done.push(word.key()))),
        final(ret).labels() == Map::<Seq<int>, int>::empty(),
{
    proof {
        lemma_occurrences_bounds(done, word.key());
        lemma_collect_coeff(unit_terms(done));
        lemma_collect_push(unit_terms(done), word.key(), 1);
        assert(unit_terms(done).push((word.key(), 1int)) =~= unit_terms(done.push(word.key())));
    }
    let res = ret.add_to(word, 1);
}

/// The interleavings of a word of 1 letter with one of 1, in the order in
/// which `shuffle_product_unrolled_1_1` adds them.
pub open spec fn words_1_1(u: Word, v: Word) -> Seq<Word> {
    step_words(seq![u], v.last(), seq![v], u.last())
}

/// The words of `words_1_1` add up to the shuffle product.
pub proof fn lemma_words_1_1(u: Word, v: Word)
    requires
        u.len() == 1,
        v.len() == 1,
    ensures
        collect(unit_terms(words_1_1(u, v))) == shuffle_map(u, v),
{
    assert(interleavings(u, v.drop_last()) =~= seq![u]);
    assert(interleavings(u.drop_last(), v) =~= seq![v]);
    lemma_shuffle_step(u, v, seq![u], seq![v]);
}

/// The interleavings of a word of 1 letter with one of 2, in the order in
/// which `shuffle_product_unrolled_1_2` adds them.
pub open spec fn words_1_2(u: Word, v: Word) -> Seq<Word> {
    step_words(words_1_1(u, v.drop_last()), v.last(), seq![v], u.last())
}

/// The words of `words_1_2` add up to the shuffle product.
pub proof fn lemma_words_1_2(u: Word, v: Word)
    requires
        u.len() == 1,
        v.len() == 2,
    ensures
        collect(unit_terms(words_1_2(u, v))) == shuffle_map(u, v),
{
    lemma_words_1_1(u, v.drop_last());
    assert(interleavings(u.drop_last(), v) =~= seq![v]);
    lemma_shuffle_step(u, v, words_1_1(u, v.drop_last()), seq![v]);
}

/// The interleavings of a word of 1 letter with one of 3, in the order in
/// which `shuffle_product_unrolled_1_3` adds them.
pub open spec fn words_1_3(u: Word, v: Word) -> Seq<Word> {
    step_words(words_1_2(u, v.drop_last()), v.last(), seq![v], u.last())
}

/// The words of `words_1_3` add up to the shuffle product.
pub proof fn lemma_words_1_3(u: Word, v: Word)
    requires
        u.len() == 1,
        v.len() == 3,
    ensures
        collect(unit_terms(words_1_3(u, v))) == shuffle_map(u, v),
{
    lemma_words_1_2(u, v.drop_last());
    assert(interleavings(u.drop_last(), v) =~= seq![v]);
    lemma_shuffle_step(u, v, words_1_2(u, v.drop_last()), seq![v]);
}

/// The interleavings of a word of 1 letter with one of 4, in the order in
/// which `shuffle_product_unrolled_1_4` adds them.
pub open spec fn words_1_4(u: Word, v: Word) -> Seq<Word> {
    step_words(words_1_3(u, v.drop_last()), v.last(), seq![v], u.last())
}

/// The words of `words_1_4` add up to the shuffle product.
pub proof fn lemma_words_1_4(u: Word, v: Word)
    requires
        u.len() == 1,
        v.len() == 4,
    ensures
        collect(unit_terms(words_1_4(u, v))) == shuffle_map(u, v),
{
    lemma_words_1_3(u, v.drop_last());
    assert(interleavings(u.drop_last(), v) =~= seq![v]);
    lemma_shuffle_step(u, v, words_1_3(u, v.drop_last()), seq![v]);
}

/// The interleavings of a word of 1 letter with one of 5, in the order in
/// which `shuffle_product_unrolled_1_5` adds them.
pub open spec fn words_1_5(u: Word, v: Word) -> Seq<Word> {
    step_words(words_1_4(u, v.drop_last()), v.last(), seq![v], u.last())
}

/// The words of `words_1_5` add up to the shuffle product.
pub proof fn lemma_words_1_5(u: Word, v: Word)
    requires
        u.len() == 1,
        v.len() == 5,
    ensures
        collect(unit_terms(words_1_5(u, v))) == shuffle_map(u, v),
{
    lemma_words_1_4(u, v.drop_last());
    assert(interleavings(u.drop_last(), v) =~= seq![v]);
    lemma_shuffle_step(u, v, words_1_4(u, v.drop_last()), seq![v]);
}

/// The interleavings of a word of 2 letters with one of 2, in the order in
/// which `shuffle_product_unrolled_2_2` adds them.
pub open spec fn words_2_2(u: Word, v: Word) -> Seq<Word> {
    step_words(words_1_2(v.drop_last(), u), v.last(), words_1_2(u.drop_last(), v), u.last())
}

/// The words of `words_2_2` add up to the shuffle product.
pub proof fn lemma_words_2_2(u: Word, v: Word)
    requires
        u.len() == 2,
        v.len() == 2,
    ensures
        collect(unit_terms(words_2_2(u, v))) == shuffle_map(u, v),
{
    lemma_words_1_2(v.drop_last(), u);
    lemma_shuffle_commutative(v.drop_last(), u);
    lemma_words_1_2(u.drop_last(), v);
    lemma_shuffle_step(u, v, words_1_2(v.drop_last(), u), words_1_2(u.drop_last(), v));
}

/// The interleavings of a word of 2 letters with one of 3, in the order in
/// which `shuffle_product_unrolled_2_3` adds them.
pub open spec fn words_2_3(u: Word, v: Word) -> Seq<Word> {
    step_words(words_2_2(u, v.drop_last()), v.last(), words_1_3(u.drop_last(), v), u.last())
}

/// The words of `words_2_3` add up to the shuffle product.
pub proof fn lemma_words_2_3(u: Word, v: Word)
    requires
        u.len() == 2,
        v.len() == 3,
    ensures
        collect(unit_terms(words_2_3(u, v))) == shuffle_map(u, v),
{
    lemma_words_2_2(u, v.drop_last());
    lemma_words_1_3(u.drop_last(), v);
    lemma_shuffle_step(u, v, words_2_2(u, v.drop_last()), words_1_3(u.drop_last(), v));
}

/// The interleavings of a word of 2 letters with one of 4, in the order in
/// which `shuffle_product_unrolled_2_4` adds them.
pub open spec fn words_2_4(u: Word, v: Word) -> Seq<Word> {
    step_words(words_2_3(u, v.drop_last()), v.last(), words_1_4(u.drop_last(), v), u.last())
}

/// The words of `words_2_4` add up to the shuffle product.
pub proof fn lemma_words_2_4(u: Word, v: Word)
    requires
        u.len() == 2,
        v.len() == 4,
    ensures
        collect(unit_terms(words_2_4(u, v))) == shuffle_map(u, v),
{
    lemma_words_2_3(u, v.drop_last());
    lemma_words_1_4(u.drop_last(), v);
    lemma_shuffle_step(u, v, words_2_3(u, v.drop_last()), words_1_4(u.drop_last(), v));
}

/// The interleavings of a word of 3 letters with one of 3, in the order in
/// which `shuffle_product_unrolled_3_3` adds them.
pub open spec fn words_3_3(u: Word, v: Word) -> Seq<Word> {
    step_words(words_2_3(v.drop_last(), u), v.last(), words_2_3(u.drop_last(), v), u.last())
}

/// The words of `words_3_3` add up to the shuffle product.
pub proof fn lemma_words_3_3(u: Word, v: Word)
    requires
        u.len() == 3,
        v.len() == 3,
    ensures
        collect(unit_terms(words_3_3(u, v))) == shuffle_map(u, v),
{
    lemma_words_2_3(v.drop_last(), u);
    lemma_shuffle_commutative(v.drop_last(), u);
    lemma_words_2_3(u.drop_last(), v);
    lemma_shuffle_step(u, v, words_2_3(v.drop_last(), u), words_2_3(u.drop_last(), v));
}

/// The shuffle product of a word of 1 letter with one of 1, written out.
fn shuffle_product_unrolled_1_1<T: Atom, M: LinearMonom + VectorLike<T>>(u: &M, v: &M) -> (r: Linear<M>)
    requires
        u.key().len() == 1,
        v.key().len() == 1,
    ensures
        r.wf(),
        r@ == shuffle_map(u.key(), v.key()),
        r.labels() == Map::<Seq<int>, int>::empty(),
{
    let u0 = u.at(0);
    let v0 = v.at(0);
    let mut ret = Linear::<M>::zero();
    let ghost d0: Seq<Word> = Seq::empty();
    assert(collect(unit_terms(d0)) =~= Map::<Seq<int>, int>::empty());
    let w = make_word::<T, M>(&vec![u0, v0]);
    let ghost d1 = d0.push(w.key());
    add_word(&mut ret, w, Ghost(d0));
    let w = make_word::<T, M>(&vec![v0, u0]);
    let ghost d2 = d1.push(w.key());
    add_word(&mut ret, w, Ghost(d1));
    proof {
        assert(d2 =~~= words_1_1(u.key(), v.key()));
        lemma_words_1_1(u.key(), v.key());
    }
    ret
}

/// The shuffle product of a word of 1 letter with one of 2, written out.
fn shuffle_product_unrolled_1_2<T: Atom, M: LinearMonom + VectorLike<T>>(u: &M, v: &M) -> (r: Linear<M>)
    requires
        u.key().len() == 1,
        v.key().len() == 2,
    ensures
        r.wf(),
        r@ == shuffle_map(u.key(), v.key()),
        r.labels() == Map::<Seq<int>, int>::empty(),
{
    let u0 = u.at(0);
    let v0 = v.at(0);
    let v1 = v.at(1);
    let mut ret = Linear::<M>::zero();
    let ghost d0: Seq<Word> = Seq::empty();
    assert(collect(unit_terms(d0)) =~= Map::<Seq<int>, int>::empty());
    let w = make_word::<T, M>(&vec![u0, v0, v1]);
    let ghost d1 = d0.push(w.key());
    add_word(&mut ret, w, Ghost(d0));
    let w = make_word::<T, M>(&vec![v0, u0, v1]);
    let ghost d2 = d1.push(w.key());
    add_word(&mut ret, w, Ghost(d1));
    let w = make_word::<T, M>(&vec![v0, v1, u0]);
    let ghost d3 = d2.push(w.key());
    add_word(&mut ret, w, Ghost(d2));
    proof {
        assert(d3 =~~= words_1_2(u.key(), v.key()));
        lemma_words_1_2(u.key(), v.key());
    }
    ret
}

/// The shuffle product of a word of 1 letter with one of 3, written out.
fn shuffle_product_unrolled_1_3<T: Atom, M: LinearMonom + VectorLike<T>>(u: &M, v: &M) -> (r: Linear<M>)
    requires
        u.key().len() == 1,
        v.key().len() == 3,
    ensures
        r.wf(),
        r@ == shuffle_map(u.key(), v.key()),
        r.labels() == Map::<Seq<int>, int>::empty(),
{
    let u0 = u.at(0);
    let v0 = v.at(0);
    let v1 = v.at(1);
    let v2 = v.at(2);
    let mut ret = Linear::<M>::zero();
    let ghost d0: Seq<Word> = Seq::empty();
    assert(collect(unit_terms(d0)) =~= Map::<Seq<int>, int>::empty());
    let w = make_word::<T, M>(&vec![u0, v0, v1, v2]);
    let ghost d1 = d0.push(w.key());
    add_word(&mut ret, w, Ghost(d0));
    let w = make_word::<T, M>(&vec![v0, u0, v1, v2]);
    let ghost d2 = d1.push(w.key());
    add_word(&mut ret, w, Ghost(d1));
    let w = make_word::<T, M>(&vec![v0, v1, u0, v2]);
    let ghost d3 = d2.push(w.key());
    add_word(&mut ret, w, Ghost(d2));
    let w = make_word::<T, M>(&vec![v0, v1, v2, u0]);
    let ghost d4 = d3.push(w.key());
    add_word(&mut ret, w, Ghost(d3));
    proof {
        assert(d4 =~~= words_1_3(u.key(), v.key()));
        lemma_words_1_3(u.key(), v.key());
    }
    ret
}

/// The shuffle product of a word of 1 letter with one of 4, written out.
fn shuffle_product_unrolled_1_4<T: Atom, M: LinearMonom + VectorLike<T>>(u: &M, v: &M) -> (r: Linear<M>)
    requires
        u.key().len() == 1,
        v.key().len() == 4,
    ensures
        r.wf(),
        r@ == shuffle_map(u.key(), v.key()),
        r.labels() == Map::<Seq<int>, int>::empty(),
{
    let u0 = u.at(0);
    let v0 = v.at(0);
    let v1 = v.at(1);
    let v2 = v.at(2);
    let v3 = v.at(3);
    let mut ret = Linear::<M>::zero();
    let ghost d0: Seq<Word> = Seq::empty();
    assert(collect(unit_terms(d0)) =~= Map::<Seq<int>, int>::empty());
    let w = make_word::<T, M>(&vec![u0, v0, v1, v2, v3]);
    let ghost d1 = d0.push(w.key());
    add_word(&mut ret, w, Ghost(d0));
    let w = make_word::<T, M>(&vec![v0, u0, v1, v2, v3]);
    let ghost d2 = d1.push(w.key());
    add_word(&mut ret, w, Ghost(d1));
    let w = make_word::<T, M>(&vec![v0, v1, u0, v2, v3]);
    let ghost d3 = d2.push(w.key());
    add_word(&mut ret, w, Ghost(d2));
    let w = make_word::<T, M>(&vec![v0, v1, v2, u0, v3]);
    let ghost d4 = d3.push(w.key());
    add_word(&mut ret, w, Ghost(d3));
    let w = make_word::<T, M>(&vec![v0, v1, v2, v3, u0]);
    let ghost d5 = d4.push(w.key());
    add_word(&mut ret, w, Ghost(d4));
    proof {
        assert(d5 =~~= words_1_4(u.key(), v.key()));
        lemma_words_1_4(u.key(), v.key());
    }
    ret
}

/// The shuffle product of a word of 1 letter with one of 5, written out.
fn shuffle_product_unrolled_1_5<T: Atom, M: LinearMonom + VectorLike<T>>(u: &M, v: &M) -> (r: Linear<M>)
    requires
        u.key().len() == 1,
        v.key().len() == 5,
    ensures
        r.wf(),
        r@ == shuffle_map(u.key(), v.key()),
        r.labels() == Map::<Seq<int>, int>::empty(),
{
    let u0 = u.at(0);
    let v0 = v.at(0);
    let v1 = v.at(1);
    let v2 = v.at(2);
    let v3 = v.at(3);
    let v4 = v.at(4);
    let mut ret = Linear::<M>::zero();
    let ghost d0: Seq<Word> = Seq::empty();
    assert(collect(unit_terms(d0)) =~= Map::<Seq<int>, int>::empty());
    let w = make_word::<T, M>(&vec![u0, v0, v1, v2, v3, v4]);
    let ghost d1 = d0.push(w.key());
    add_word(&mut ret, w, Ghost(d0));
    let w = make_word::<T, M>(&vec![v0, u0, v1, v2, v3, v4]);
    let ghost d2 = d1.push(w.key());
    add_word(&mut ret, w, Ghost(d1));
    let w = make_word::<T, M>(&vec![v0, v1, u0, v2, v3, v4]);
    let ghost d3 = d2.push(w.key());
    add_word(&mut ret, w, Ghost(d2));
    let w = make_word::<T, M>(&vec![v0, v1, v2, u0, v3, v4]);
    let ghost d4 = d3.push(w.key());
    add_word(&mut ret, w, Ghost(d3));
    let w = make_word::<T, M>(&vec![v0, v1, v2, v3, u0, v4]);
    let ghost d5 = d4.push(w.key());
    add_word(&mut ret, w, Ghost(d4));
    let w = make_word::<T, M>(&vec![v0, v1, v2, v3, v4, u0]);
    let ghost d6 = d5.push(w.key());
    add_word(&mut ret, w, Ghost(d5));
    proof {
        assert(d6 =~~= words_1_5(u.key(), v.key()));
        lemma_words_1_5(u.key(), v.key());
    }
    ret
}

/// The shuffle product of a word of 2 letters with one of 2, written out.
fn shuffle_product_unrolled_2_2<T: Atom, M: LinearMonom + VectorLike<T>>(u: &M, v: &M) -> (r: Linear<M>)
    requires
        u.key().len() == 2,
        v.key().len() == 2,
    ensures
        r.wf(),
        r@ == shuffle_map(u.key(), v.key()),
        r.labels() == Map::<Seq<int>, int>::empty(),
{
    let u0 = u.at(0);
    let u1 = u.at(1);
    let v0 = v.at(0);
    let v1 = v.at(1);
    let mut ret = Linear::<M>::zero();
    let ghost d0: Seq<Word> = Seq::empty();
    assert(collect(unit_terms(d0)) =~= Map::<Seq<int>, int>::empty());
    let w = make_word::<T, M>(&vec![v0, u0, u1, v1]);
    let ghost d1 = d0.push(w.key());
    add_word(&mut ret, w, Ghost(d0));
    let w = make_word::<T, M>(&vec![u0, v0, u1, v1]);
    let ghost d2 = d1.push(w.key());
    add_word(&mut ret, w, Ghost(d1));
    let w = make_word::<T, M>(&vec![u0, u1, v0, v1]);
    let ghost d3 = d2.push(w.key());
    add_word(&mut ret, w, Ghost(d2));
    let w = make_word::<T, M>(&vec![u0, v0, v1, u1]);
    let ghost d4 = d3.push(w.key());
    add_word(&mut ret, w, Ghost(d3));
    let w = make_word::<T, M>(&vec![v0, u0, v1, u1]);
    let ghost d5 = d4.push(w.key());
    add_word(&mut ret, w, Ghost(d4));
    let w = make_word::<T, M>(&vec![v0, v1, u0, u1]);
    let ghost d6 = d5.push(w.key());
    add_word(&mut ret, w, Ghost(d5));
    proof {
        assert(d6 =~~= words_2_2(u.key(), v.key()));
        lemma_words_2_2(u.key(), v.key());
    }
    ret
}

/// The shuffle product of a word of 2 letters with one of 3, written out.
fn shuffle_product_unrolled_2_3<T: Atom, M: LinearMonom + VectorLike<T>>(u: &M, v: &M) -> (r: Linear<M>)
    requires
        u.key().len() == 2,
        v.key().len() == 3,
    ensures
        r.wf(),
        r@ == shuffle_map(u.key(), v.key()),
        r.labels() == Map::<Seq<int>, int>::empty(),
{
    let u0 = u.at(0);
    let u1 = u.at(1);
    let v0 = v.at(0);
    let v1 = v.at(1);
    let v2 = v.at(2);
    let mut ret = Linear::<M>::zero();
    let ghost d0: Seq<Word> = Seq::empty();
    assert(collect(unit_terms(d0)) =~= Map::<Seq<int>, int>::empty());
    let w = make_word::<T, M>(&vec![v0, u0, u1, v1, v2]);
    let ghost d1 = d0.push(w.key());
    add_word(&mut ret, w, Ghost(d0));
    let w = make_word::<T, M>(&vec![u0, v0, u1, v1, v2]);
    let ghost d2 = d1.push(w.key());
    add_word(&mut ret, w, Ghost(d1));
    let w = make_word::<T, M>(&vec![u0, u1, v0, v1, v2]);
    let ghost d3 = d2.push(w.key());
    add_word(&mut ret, w, Ghost(d2));
    let w = make_word::<T, M>(&vec![u0, v0, v1, u1, v2]);
    let ghost d4 = d3.push(w.key());
    add_word(&mut ret, w, Ghost(d3));
    let w = make_word::<T, M>(&vec![v0, u0, v1, u1, v2]);
    let ghost d5 = d4.push(w.key());
    add_word(&mut ret, w, Ghost(d4));
    let w = make_word::<T, M>(&vec![v0, v1, u0, u1, v2]);
    let ghost d6 = d5.push(w.key());
    add_word(&mut ret, w, Ghost(d5));
    let w = make_word::<T, M>(&vec![u0, v0, v1, v2, u1]);
    let ghost d7 = d6.push(w.key());
    add_word(&mut ret, w, Ghost(d6));
    let w = make_word::<T, M>(&vec![v0, u0, v1, v2, u1]);
    let ghost d8 = d7.push(w.key());
    add_word(&mut ret, w, Ghost(d7));
    let w = make_word::<T, M>(&vec![v0, v1, u0, v2, u1]);
    let ghost d9 = d8.push(w.key());
    add_word(&mut ret, w, Ghost(d8));
    let w = make_word::<T, M>(&vec![v0, v1, v2, u0, u1]);
    let ghost d10 = d9.push(w.key());
    add_word(&mut ret, w, Ghost(d9));
    proof {
        assert(d10 =~~= words_2_3(u.key(), v.key()));
        lemma_words_2_3(u.key(), v.key());
    }
    ret
}

/// The shuffle product of a word of 2 letters with one of 4, written out.
fn shuffle_product_unrolled_2_4<T: Atom, M: LinearMonom + VectorLike<T>>(u: &M, v: &M) -> (r: Linear<M>)
    requires
        u.key().len() == 2,
        v.key().len() == 4,
    ensures
        r.wf(),
        r@ == shuffle_map(u.key(), v.key()),
        r.labels() == Map::<Seq<int>, int>::empty(),
{
    let u0 = u.at(0);
    let u1 = u.at(1);
    let v0 = v.at(0);
    let v1 = v.at(1);
    let v2 = v.at(2);
    let v3 = v.at(3);
    let mut ret = Linear::<M>::zero();
    let ghost d0: Seq<Word> = Seq::empty();
    assert(collect(unit_terms(d0)) =~= Map::<Seq<int>, int>::empty());
    let w = make_word::<T, M>(&vec![v0, u0, u1, v1, v2, v3]);
    let ghost d1 = d0.push(w.key());
    add_word(&mut ret, w, Ghost(d0));
    let w = make_word::<T, M>(&vec![u0, v0, u1, v1, v2, v3]);
    let ghost d2 = d1.push(w.key());
    add_word(&mut ret, w, Ghost(d1));
    let w = make_word::<T, M>(&vec![u0, u1, v0, v1, v2, v3]);
    let ghost d3 = d2.push(w.key());
    add_word(&mut ret, w, Ghost(d2));
    let w = make_word::<T, M>(&vec![u0, v0, v1, u1, v2, v3]);
    let ghost d4 = d3.push(w.key());
    add_word(&mut ret, w, Ghost(d3));
    let w = make_word::<T, M>(&vec![v0, u0, v1, u1, v2, v3]);
    let ghost d5 = d4.push(w.key());
    add_word(&mut ret, w, Ghost(d4));
    let w = make_word::<T, M>(&vec![v0, v1, u0, u1, v2, v3]);
    let ghost d6 = d5.push(w.key());
    add_word(&mut ret, w, Ghost(d5));
    let w = make_word::<T, M>(&vec![u0, v0, v1, v2, u1, v3]);
    let ghost d7 = d6.push(w.key());
    add_word(&mut ret, w, Ghost(d6));
    let w = make_word::<T, M>(&vec![v0, u0, v1, v2, u1, v3]);
    let ghost d8 = d7.push(w.key());
    add_word(&mut ret, w, Ghost(d7));
    let w = make_word::<T, M>(&vec![v0, v1, u0, v2, u1, v3]);
    let ghost d9 = d8.push(w.key());
    add_word(&mut ret, w, Ghost(d8));
    let w = make_word::<T, M>(&vec![v0, v1, v2, u0, u1, v3]);
    let ghost d10 = d9.push(w.key());
    add_word(&mut ret, w, Ghost(d9));
    let w = make_word::<T, M>(&vec![u0, v0, v1, v2, v3, u1]);
    let ghost d11 = d10.push(w.key());
    add_word(&mut ret, w, Ghost(d10));
    let w = make_word::<T, M>(&vec![v0, u0, v1, v2, v3, u1]);
    let ghost d12 = d11.push(w.key());
    add_word(&mut ret, w, Ghost(d11));
    let w = make_word::<T, M>(&vec![v0, v1, u0, v2, v3, u1]);
    let ghost d13 = d12.push(w.key());
    add_word(&mut ret, w, Ghost(d12));
    let w = make_word::<T, M>(&vec![v0, v1, v2, u0, v3, u1]);
    let ghost d14 = d13.push(w.key());
    add_word(&mut ret, w, Ghost(d13));
    let w = make_word::<T, M>(&vec![v0, v1, v2, v3, u0, u1]);
    let ghost d15 = d14.push(w.key());
    add_word(&mut ret, w, Ghost(d14));
    proof {
        assert(d15 =~~= words_2_4(u.key(), v.key()));
        lemma_words_2_4(u.key(), v.key());
    }
    ret
}

/// The shuffle product of a word of 3 letters with one of 3, written out.
fn shuffle_product_unrolled_3_3<T: Atom, M: LinearMonom + VectorLike<T>>(u: &M, v: &M) -> (r: Linear<M>)
    requires
        u.key().len() == 3,
        v.key().len() == 3,
    ensures
        r.wf(),
        r@ == shuffle_map(u.key(), v.key()),
        r.labels() == Map::<Seq<int>, int>::empty(),
{
    let u0 = u.at(0);
    let u1 = u.at(1);
    let u2 = u.at(2);
    let v0 = v.at(0);
    let v1 = v.at(1);
    let v2 = v.at(2);
    let mut ret = Linear::<M>::zero();
    let ghost d0: Seq<Word> = Seq::empty();
    assert(collect(unit_terms(d0)) =~= Map::<Seq<int>, int>::empty());
    let w = make_word::<T, M>(&vec![u0, v0, v1, u1, u2, v2]);
    let ghost d1 = d0.push(w.key());
    add_word(&mut ret, w, Ghost(d0));
    let w = make_word::<T, M>(&vec![v0, u0, v1, u1, u2, v2]);
    let ghost d2 = d1.push(w.key());
    add_word(&mut ret, w, Ghost(d1));
    let w = make_word::<T, M>(&vec![v0, v1, u0, u1, u2, v2]);
    let ghost d3 = d2.push(w.key());
    add_word(&mut ret, w, Ghost(d2));
    let w = make_word::<T, M>(&vec![v0, u0, u1, v1, u2, v2]);
    let ghost d4 = d3.push(w.key());
    add_word(&mut ret, w, Ghost(d3));
    let w = make_word::<T, M>(&vec![u0, v0, u1, v1, u2, v2]);
    let ghost d5 = d4.push(w.key());
    add_word(&mut ret, w, Ghost(d4));
    let w = make_word::<T, M>(&vec![u0, u1, v0, v1, u2, v2]);
    let ghost d6 = d5.push(w.key());
    add_word(&mut ret, w, Ghost(d5));
    let w = make_word::<T, M>(&vec![v0, u0, u1, u2, v1, v2]);
    let ghost d7 = d6.push(w.key());
    add_word(&mut ret, w, Ghost(d6));
    let w = make_word::<T, M>(&vec![u0, v0, u1, u2, v1, v2]);
    let ghost d8 = d7.push(w.key());
    add_word(&mut ret, w, Ghost(d7));
    let w = make_word::<T, M>(&vec![u0, u1, v0, u2, v1, v2]);
    let ghost d9 = d8.push(w.key());
    add_word(&mut ret, w, Ghost(d8));
    let w = make_word::<T, M>(&vec![u0, u1, u2, v0, v1, v2]);
    let ghost d10 = d9.push(w.key());
    add_word(&mut ret, w, Ghost(d9));
    let w = make_word::<T, M>(&vec![v0, u0, u1, v1, v2, u2]);
    let ghost d11 = d10.push(w.key());
    add_word(&mut ret, w, Ghost(d10));
    let w = make_word::<T, M>(&vec![u0, v0, u1, v1, v2, u2]);
    let ghost d12 = d11.push(w.key());
    add_word(&mut ret, w, Ghost(d11));
    let w = make_word::<T, M>(&vec![u0, u1, v0, v1, v2, u2]);
    let ghost d13 = d12.push(w.key());
    add_word(&mut ret, w, Ghost(d12));
    let w = make_word::<T, M>(&vec![u0, v0, v1, u1, v2, u2]);
    let ghost d14 = d13.push(w.key());
    add_word(&mut ret, w, Ghost(d13));
    let w = make_word::<T, M>(&vec![v0, u0, v1, u1, v2, u2]);
    let ghost d15 = d14.push(w.key());
    add_word(&mut ret, w, Ghost(d14));
    let w = make_word::<T, M>(&vec![v0, v1, u0, u1, v2, u2]);
    let ghost d16 = d15.push(w.key());
    add_word(&mut ret, w, Ghost(d15));
    let w = make_word::<T, M>(&vec![u0, v0, v1, v2, u1, u2]);
    let ghost d17 = d16.push(w.key());
    add_word(&mut ret, w, Ghost(d16));
    let w = make_word::<T, M>(&vec![v0, u0, v1, v2, u1, u2]);
    let ghost d18 = d17.push(w.key());
    add_word(&mut ret, w, Ghost(d17));
    let w = make_word::<T, M>(&vec![v0, v1, u0, v2, u1, u2]);
    let ghost d19 = d18.push(w.key());
    add_word(&mut ret, w, Ghost(d18));
    let w = make_word::<T, M>(&vec![v0, v1, v2, u0, u1, u2]);
    let ghost d20 = d19.push(w.key());
    add_word(&mut ret, w, Ghost(d19));
    proof {
        assert(d20 =~~= words_3_3(u.key(), v.key()));
        lemma_words_3_3(u.key(), v.key());
    }
    ret
}

/// The pairs of lengths for which the product is written out.
pub open spec fn is_unrolled(p: nat, q: nat) -> bool {
    1 <= p && 1 <= q && p + q <= 6
}

/// The shuffle product by one of the written-out forms, where the lengths
/// of the words have one.
fn shuffle_product_unrolled<T: Atom, M: LinearMonom + VectorLike<T>>(u: &M, v: &M) -> (r: Option<
    Linear<M>,
>)
    ensures
        r is Some <==> is_unrolled(u.key().len(), v.key().len()),
        match r {
            Some(p) => p.wf() && p@ == shuffle_map(u.key(), v.key()) && p.labels() == Map::<
                Seq<int>,
                int,
            >::empty(),
            None => true,
        },
{
    proof {
        lemma_shuffle_commutative(v.key(), u.key());
    }
    match (u.len(), v.len()) {
        (1, 1) => Some(shuffle_product_unrolled_1_1(u, v)),
        (1, 2) => Some(shuffle_product_unrolled_1_2(u, v)),
        (1, 3) => Some(shuffle_product_unrolled_1_3(u, v)),
        (1, 4) => Some(shuffle_product_unrolled_1_4(u, v)),
        (1, 5) => Some(shuffle_product_unrolled_1_5(u, v)),
        (2, 1) => Some(shuffle_product_unrolled_1_2(v, u)),
        (2, 2) => Some(shuffle_product_unrolled_2_2(u, v)),
        (2, 3) => Some(shuffle_product_unrolled_2_3(u, v)),
        (2, 4) => Some(shuffle_product_unrolled_2_4(u, v)),
        (3, 1) => Some(shuffle_product_unrolled_1_3(v, u)),
        (3, 2) => Some(shuffle_product_unrolled_2_3(v, u)),
        (3, 3) => Some(shuffle_product_unrolled_3_3(u, v)),
        (4, 1) => Some(shuffle_product_unrolled_1_4(v, u)),
        (4, 2) => Some(shuffle_product_unrolled_2_4(v, u)),
        (5, 1) => Some(shuffle_product_unrolled_1_5(v, u)),
        (_, _) => None,
    }
}

/// Adds to `acc` every term of `src` with the atom `x` appended to its word.
fn extend_each<T: Atom, M: LinearMonom + VectorLike<T>>(src: Linear<M>, x: T, acc: &mut Linear<
    M,
>) -> (r: Result<(), ArithmeticError>)
    requires
        src.wf(),
        old(acc).wf(),
    ensures
        final(acc).wf(),
        final(acc).labels() == old(acc).labels(),
        all_fit(map_add(old(acc)@, map_push(src@, x.code()))) ==> r is Ok && final(acc)@ == map_add(
            old(acc)@,
            map_push(src@, x.code()),
        ),
        !all_fit(map_add(old(acc)@, map_push(src@, x.code()))) ==> r == Err::<(), ArithmeticError>(
            ArithmeticError::Overflow,
        ),
{
    let ghost t = src.terms();
    let ghost a0 = acc@;
    let ghost xc = x.code();
    let ghost goal = map_add(a0, map_push(src@, xc));
    proof {
        src.lemma_view();
        lemma_canonical_distinct(t);
        lemma_collect_coeff(t);
        assert(t.skip(t.len() as int) =~= Seq::<(Seq<int>, int)>::empty());
    }
    let mut items = src.into_iter();
    loop
        invariant
            acc.wf(),
            acc.labels() == old(acc).labels(),
            a0 == old(acc)@,
            xc == x.code(),
            canonical(t),
            src@ == collect(t),
            goal == map_add(a0, map_push(src@, xc)),
            items@.len() <= t.len(),
            term_list(items@) == t.take(items@.len() as int),
            forall|i: int, j: int| 0 <= i < j < t.len() ==> (#[trigger] t[i]).0 != (#[trigger] t[j]).0,
            forall|w: Word| coeff(acc@, w) == coeff(a0, w) + pushed_coeff(collect(t.skip(items@.len() as int)), xc, w),
        ensures
            acc.wf(),
            acc.labels() == old(acc).labels(),
            acc@ == goal,
            all_fit(goal),
        decreases items@.len(),
    {
        let ghost n = items@.len() as int;
        let ghost before = acc@;
        match items.pop() {
            None => {
                proof {
                    assert(t.skip(0) =~= t);
                    acc.lemma_view();
                    assert forall|w: Word| coeff(acc@, w) == coeff(goal, w) by {
                        assert(coeff(acc@, w) == coeff(a0, w) + pushed_coeff(collect(t), xc, w));
                    }
                    lemma_same_coeffs(acc@, goal);
                }
                break ;
            },
            Some(item) => {
                let (m, c) = item;
                let mut word = m;
                let ghost k0 = word.key();
                word.push(x);
                let ghost k = word.key();
                proof {
                    assert(term_list(items@) =~= t.take(n - 1));
                    assert(t.take(n)[n - 1] == t[n - 1]);
                    assert((k0, c as int) == t[n - 1]);
                    assert(k.drop_last() =~= k0);
                    let rest = t.skip(n);
                    assert(t.skip(n - 1) =~= seq![t[n - 1]] + rest);
                    assert forall|w: Word| coeff_in(t.skip(n - 1), w) == coeff_in(rest, w) + if t[n - 1].0 == w { t[n - 1].1 } else { 0 } by {
                        lemma_coeff_in_prepend(t[n - 1], rest, w);
                    }
                    assert(forall|i: int, j: int| 0 <= i < j < rest.len() ==> (#[trigger] rest[i]).0 != (#[trigger] rest[j]).0) by {
                        assert forall|i: int, j: int| 0 <= i < j < rest.len() implies (#[trigger] rest[i]).0 != (#[trigger] rest[j]).0 by {
                            assert(rest[i] == t[n + i] && rest[j] == t[n + j]);
                        }
                    }
                    assert forall|i: int| 0 <= i < rest.len() implies (#[trigger] rest[i]).0 != k0 by {
                        assert(rest[i] == t[n + i]);
                        assert(t[n - 1].0 != t[n + i].0);
                    }
                    lemma_coeff_in_distinct(rest, k0);
                    lemma_coeff_in_distinct(t, k0);
                    lemma_collect_coeff(rest);
                    lemma_collect_coeff(t.skip(n - 1));
                    assert(coeff(src@, k0) == c);
                    assert(coeff(acc@, k) == coeff(a0, k));
                    assert(coeff(goal, k) == coeff(a0, k) + c);
                }
                match acc.add_to(word, c) {
                    Err(e) => {
                        proof {
                            assert(goal.contains_key(k));
                            assert(!fits(goal[k]));
                        }
                        return Err(ArithmeticError::Overflow);
                    },
                    Ok(_) => {
                        proof {
                            assert forall|w: Word| coeff(acc@, w) == coeff(a0, w) + pushed_coeff(collect(t.skip(n - 1)), xc, w) by {
                                assert(coeff(before, w) == coeff(a0, w) + pushed_coeff(collect(t.skip(n)), xc, w));
                                if w == k {
                                } else if w.len() > 0 && w.last() == xc && w.drop_last() == k0 {
                                    assert(w =~= k0.push(xc));
                                }
                            }
                        }
                    },
                }
            },
        }
    }
    Ok(())
}

/// The shuffle product of two words: the sum of all their interleavings.
/// The product of two empty words is the empty sum. Fails if a coefficient
/// of the product is out of the range of the coefficient type.
pub fn shuffle_product<T: Atom, M: LinearMonom + VectorLike<T>>(u: &M, v: &M) -> (r: Result<
    Linear<M>,
    ArithmeticError,
>)
    ensures
        match r {
            Ok(p) => p.wf() && p@ == shuffle_map(u.key(), v.key()) && p.labels() == Map::<
                Seq<int>,
                int,
            >::empty() && all_fit(shuffle_map(u.key(), v.key())),
            Err(e) => e == ArithmeticError::Overflow && !all_fit(shuffle_map(u.key(), v.key())),
        },
    decreases u.key().len() + v.key().len(),
{
    let ghost uk = u.key();
    let ghost vk = v.key();
    if u.len() == 0 && v.len() == 0 {
        return Ok(Linear::<M>::zero());
    }
    if u.len() == 0 {
        let one = Linear::<M>::single(v.duplicate());
        proof {
            lemma_shuffle_with_empty(uk, vk);
            one.lemma_view();
        }
        return Ok(one);
    }
    if v.len() == 0 {
        let one = Linear::<M>::single(u.duplicate());
        proof {
            lemma_shuffle_with_empty(uk, vk);
            one.lemma_view();
        }
        return Ok(one);
    }
    match shuffle_product_unrolled(u, v) {
        Some(ret) => {
            proof {
                ret.lemma_view();
            }
            return Ok(ret);
        },
        None => {},
    }
    let mut u_trunc = u.duplicate();
    let mut v_trunc = v.duplicate();
    let a: T = u_trunc.pop().unwrap();
    let b: T = v_trunc.pop().unwrap();
    let r1 = match shuffle_product(u, &v_trunc) {
        Ok(p) => p,
        Err(e) => {
            proof {
                lemma_shuffle_overflow_grows(uk, vk);
            }
            return Err(e);
        },
    };
    let r2 = match shuffle_product(&u_trunc, v) {
        Ok(p) => p,
        Err(e) => {
            proof {
                lemma_shuffle_overflow_grows(uk, vk);
            }
            return Err(e);
        },
    };
    let mut ret = Linear::<M>::zero();
    let ghost first = map_push(r1@, b.code());
    proof {
        r1.lemma_view();
        lemma_shuffle_recursion(uk, vk);
        assert(map_add(Map::<Seq<int>, int>::empty(), first) =~= first);
        assert(all_fit(first)) by {
            assert forall|w: Word| first.contains_key(w) implies fits(#[trigger] first[w]) by {
                assert(r1@.contains_key(w.drop_last()));
            }
        }
    }
    let res1 = extend_each(r1, b, &mut ret);
    match extend_each(r2, a, &mut ret) {
        Ok(_) => Ok(ret),
        Err(e) => Err(e),
    }
}

/// The list of terms in canonical form that stands for a sum.
pub open spec fn sorted_terms(m: SumMap) -> TermSeq {
    choose|t: TermSeq| canonical(t) && collect(t) == m
}

/// The sum over a list of terms of the coefficient times the shuffle product
/// of the word with `tail`, added up term by term in checked arithmetic.
pub open spec fn shuffle_expand(t: TermSeq, tail: Word) -> Option<SumMap>
    decreases t.len(),
{
    if t.len() == 0 {
        Some(Map::empty())
    } else {
        match shuffle_expand(t.drop_last(), tail) {
            None => None,
            Some(acc) => expand_step(acc, shuffle_map(t.last().0, tail), t.last().1),
        }
    }
}

/// The shuffle product of a list of words, folded from the left: the product
/// of all but the last word, then every term of it shuffled with the last
/// word, in increasing order of term. `None` where a coefficient leaves the
/// range of the coefficient type on the way.
pub open spec fn shuffle_multi_map(ws: Seq<Word>) -> Option<SumMap>
    decreases ws.len(),
{
    if ws.len() == 0 {
        Some(Map::empty())
    } else if ws.len() == 1 {
        Some(single_map(ws[0], 1))
    } else if ws.len() == 2 {
        if all_fit(shuffle_map(ws[0], ws[1])) {
            Some(shuffle_map(ws[0], ws[1]))
        } else {
            None
        }
    } else {
        match shuffle_multi_map(ws.drop_last()) {
            None => None,
            Some(h) => shuffle_expand(sorted_terms(h), ws.last()),
        }
    }
}

/// The keys of a sequence of monomials.
pub open spec fn keys_of<M: LinearMonom>(ms: Seq<M>) -> Seq<Word> {
    Seq::new(ms.len(), |i: int| ms[i].key())
}

/// Once the expansion has failed on a beginning of the list, it fails on the list.
pub proof fn lemma_expand_none(t: TermSeq, tail: Word, i: int)
    requires
        0 <= i <= t.len(),
        shuffle_expand(t.take(i), tail) is None,
    ensures
        shuffle_expand(t, tail) is None,
    decreases t.len() - i,
{
    if i < t.len() {
        assert(t.take(i + 1).drop_last() =~= t.take(i));
        lemma_expand_none(t, tail, i + 1);
    } else {
        assert(t.take(i) =~= t);
    }
}

/// The shuffle product of several words, folded from the left. Of no word
/// it is the empty sum, of one word the word itself.
pub fn shuffle_product_multi<T: Atom, M: LinearMonom + VectorLike<T>>(words: &[M]) -> (r: Result<
    Linear<M>,
    ArithmeticError,
>)
    ensures
        match r {
            Ok(p) => p.wf() && shuffle_multi_map(keys_of(words@)) == Some(p@) && p.labels() == Map::<
                Seq<int>,
                int,
            >::empty() && keys_rearrange(p@, concat_all(keys_of(words@))) && forall|lo: int, hi: int| #[trigger]
                all_letters_in(keys_of(words@), lo, hi) ==> keys_within(
                    p@,
                    concat_all(keys_of(words@)).len() as int,
                    lo,
                    hi,
                ),
            Err(e) => e == ArithmeticError::Overflow && shuffle_multi_map(keys_of(words@)) is None,
        },
    decreases words@.len(),
{
    let ghost ws = keys_of(words@);
    let n = words.len();
    if n == 0 {
        return Ok(Linear::<M>::zero());
    }
    if n == 1 {
        assert(ws.skip(1) =~= Seq::<Word>::empty());
        assert(concat_all(ws.skip(1)) =~= Seq::<int>::empty());
        assert(concat_all(ws) =~= ws[0]);
        assert(keys_rearrange(single_map(ws[0], 1), concat_all(ws)));
        return Ok(Linear::<M>::single(words[0].duplicate()));
    }
    if n == 2 {
        proof {
            assert(ws.skip(1).skip(1) =~= Seq::<Word>::empty());
            assert(concat_all(ws.skip(1).skip(1)) =~= Seq::<int>::empty());
            assert(ws.skip(1)[0] == ws[1]);
            assert(concat_all(ws.skip(1)) =~= ws[1]);
            assert(concat_all(ws) =~= ws[0] + ws[1]);
            assert(concat_all(ws).len() == ws[0].len() + ws[1].len());
            lemma_shuffle_rearranges(ws[0], ws[1]);
            assert forall|lo: int, hi: int| #[trigger] all_letters_in(ws, lo, hi) implies keys_within(
                shuffle_map(ws[0], ws[1]),
                concat_all(ws).len() as int,
                lo,
                hi,
            ) by {
                assert(letters_in(ws[0], lo, hi) && letters_in(ws[1], lo, hi));
                lemma_shuffle_keys(ws[0], ws[1], lo, hi);
            }
        }
        return shuffle_product(&words[0], &words[1]);
    }
    let w_tail = &words[n - 1];
    let head_words = vstd::slice::slice_subrange(words, 0, n - 1);
    assert(keys_of(head_words@) =~= ws.drop_last());
    let head = match shuffle_product_multi(head_words) {
        Ok(p) => p,
        Err(e) => {
            return Err(e);
        },
    };
    let ghost h = head@;
    let ghost t = head.terms();
    let ghost tail = w_tail.key();
    let ghost head_len = concat_all(ws.drop_last()).len() as int;
    let ghost full_len = concat_all(ws).len() as int;
    let ghost head_word = concat_all(ws.drop_last());
    proof {
        head.lemma_view();
        head.lemma_terms_of_view(sorted_terms(h));
        assert(tail == ws.last());
        lemma_concat_last(ws);
        assert(full_len == head_len + tail.len());
        assert forall|lo: int, hi: int| #[trigger] all_letters_in(ws, lo, hi) implies all_letters_in(ws.drop_last(), lo, hi) && letters_in(tail, lo, hi) by {
            assert(letters_in(ws[ws.len() - 1], lo, hi));
            assert forall|j: int| 0 <= j < ws.drop_last().len() implies letters_in(#[trigger] ws.drop_last()[j], lo, hi) by {
                assert(letters_in(ws[j], lo, hi));
            }
        }
    }
    let items = head.into_iter();
    let mut ret = Linear::<M>::zero();
    let mut i: usize = 0;
    assert(t.take(0) =~= Seq::<(Seq<int>, int)>::empty());
    assert(shuffle_multi_map(keys_of(words@)) == shuffle_expand(t, tail));
    while i < items.len()
        invariant
            i <= items@.len(),
            term_list(items@) == t,
            shuffle_multi_map(keys_of(words@)) == shuffle_expand(t, tail),
            ws == keys_of(words@),
            full_len == concat_all(ws).len(),
            full_len == head_len + tail.len(),
            forall|j: int| 0 <= j < t.len() ==> h.contains_key((#[trigger] t[j]).0),
            forall|lo: int, hi: int| #[trigger] all_letters_in(ws, lo, hi) ==> keys_within(h, head_len, lo, hi) && letters_in(tail, lo, hi),
            forall|lo: int, hi: int| #[trigger] all_letters_in(ws, lo, hi) ==> keys_within(ret@, full_len, lo, hi),
            head_word + tail == concat_all(ws),
            keys_rearrange(h, head_word),
            keys_rearrange(ret@, concat_all(ws)),
            ret.wf(),
            ret.labels() == Map::<Seq<int>, int>::empty(),
            shuffle_expand(t.take(i as int), tail) == Some(ret@),
            tail == w_tail.key(),
        decreases items@.len() - i,
    {
        let c = items[i].1;
        proof {
            assert(t[i as int] == (items@[i as int].0.key(), c as int));
            assert(t.take(i + 1).drop_last() =~= t.take(i as int));
            assert(t.take(i + 1).last() == t[i as int]);
        }
        let ghost part = shuffle_map(t[i as int].0, tail);
        let step: Result<Linear<M>, ArithmeticError> = match shuffle_product(&items[i].0, w_tail) {
            Err(e) => Err(e),
            Ok(s) => {
                match s.mul(c) {
                    Err(e) => Err(e),
                    Ok(scaled) => {
                        proof {
                            assert(map_scale(Map::<Seq<int>, int>::empty(), c as int) =~= Map::<Seq<int>, int>::empty());
                            assert(map_add(Map::<Seq<int>, int>::empty(), Map::<Seq<int>, int>::empty()) =~= Map::<Seq<int>, int>::empty());
                        }
                        ret.add(scaled)
                    },
                }
            },
        };
        match step {
            Err(e) => {
                proof {
                    assert(expand_step(shuffle_expand(t.take(i as int), tail)->0, part, c as int) is None);
                    assert(shuffle_expand(t.take(i + 1), tail) is None);
                    lemma_expand_none(t, tail, i + 1);
                }
                return Err(ArithmeticError::Overflow);
            },
            Ok(sum) => {
                proof {
                    assert forall|lo: int, hi: int| #[trigger] all_letters_in(ws, lo, hi) implies keys_within(sum@, full_len, lo, hi) by {
                        assert(keys_within(h, head_len, lo, hi));
                        assert(h.contains_key(t[i as int].0));
                        lemma_shuffle_keys(t[i as int].0, tail, lo, hi);
                        assert(keys_within(ret@, full_len, lo, hi));
                        assert forall|w: Word| #[trigger] sum@.contains_key(w) implies w.len() == full_len && letters_in(w, lo, hi) by {
                            if !ret@.contains_key(w) {
                                assert(part.contains_key(w));
                            }
                        }
                    }
                }
                proof {
                    assert(h.contains_key(t[i as int].0));
                    lemma_shuffle_rearranges(t[i as int].0, tail);
                    lemma_rearranges_extend(t[i as int].0, head_word, 0, tail);
                    assert forall|w: Word| #[trigger] sum@.contains_key(w) implies rearranges(w, concat_all(ws)) by {
                        if !ret@.contains_key(w) {
                            assert(part.contains_key(w));
                        }
                    }
                }
                ret = sum;
            },
        }
        i += 1;
    }
    assert(t.take(i as int) =~= t);
    Ok(ret)
}

/// The size of a shuffle product: the product of two words, not both empty,
/// of `p` and `q` letters is the sum of `binomial(p + q, p)` words with the
/// coefficient 1, their interleavings, and each of them has `p + q` letters.
pub proof fn lemma_shuffle_size(u: Word, v: Word)
    requires
        u.len() + v.len() > 0,
    ensures
        shuffle_map(u, v) == collect(unit_terms(interleavings(u, v))),
        interleavings(u, v).len() == binomial(u.len() + v.len(), u.len()),
        forall|i: int| 0 <= i < interleavings(u, v).len() ==> (#[trigger] interleavings(u, v)[i]).len() == u.len() + v.len(),
        forall|w: Word| #[trigger] shuffle_map(u, v).contains_key(w) ==> w.len() == u.len() + v.len() && 1 <= shuffle_map(u, v)[w] <= binomial(u.len() + v.len(), u.len()),
{
    lemma_interleavings_count(u, v);
    assert forall|w: Word| #[trigger] shuffle_map(u, v).contains_key(w) implies w.len() == u.len() + v.len() && 1 <= shuffle_map(u, v)[w] <= binomial(u.len() + v.len(), u.len()) by {
        lemma_occurrences_bounds(interleavings(u, v), w);
        let j = lemma_occurs_somewhere(interleavings(u, v), w);
    }
}

/// In a list without repetition, a word occurs once or not at all.
pub proof fn lemma_occurrences_distinct(ws: Seq<Word>, w: Word)
    requires
        ws.no_duplicates(),
    ensures
        occurrences(ws, w) == if ws.contains(w) { 1int } else { 0int },
    decreases ws.len(),
{
    if ws.len() > 0 {
        let d = ws.drop_last();
        assert(unit_terms(ws).drop_last() =~= unit_terms(d));
        assert(d.no_duplicates());
        lemma_occurrences_distinct(d, w);
        if d.contains(w) {
            let j = choose|j: int| 0 <= j < d.len() && d[j] == w;
            assert(ws[j] == w);
            assert(ws[ws.len() - 1] != ws[j]);
        }
        if ws.contains(w) && ws.last() != w {
            let j = choose|j: int| 0 <= j < ws.len() && ws[j] == w;
            assert(d[j] == w);
        }
        if ws.last() == w {
            assert(ws[ws.len() - 1] == w);
        }
    }
}

/// Two words that share no letter and repeat none have no interleaving
/// twice: their shuffle product has `binomial(p + q, p)` terms, each with
/// the coefficient 1.
pub proof fn lemma_shuffle_distinct(u: Word, v: Word)
    requires
        (u + v).no_duplicates(),
    ensures
        interleavings(u, v).no_duplicates(),
        interleavings(u, v).len() == binomial(u.len() + v.len(), u.len()),
        u.len() + v.len() > 0 ==> forall|w: Word| #[trigger]
            shuffle_map(u, v).contains_key(w) ==> shuffle_map(u, v)[w] == 1,
    decreases u.len() + v.len(),
{
    lemma_interleavings_count(u, v);
    let all = interleavings(u, v);
    if u.len() == 0 || v.len() == 0 {
        assert(all.len() == 1);
    } else {
        let a = u.last();
        let b = v.last();
        let uv = u + v;
        assert(uv[u.len() - 1] == a);
        assert(uv[u.len() + v.len() - 1] == b);
        assert(a != b);
        assert((u + v.drop_last()).no_duplicates()) by {
            let s = u + v.drop_last();
            assert forall|i: int, j: int| 0 <= i < s.len() && 0 <= j < s.len() && i != j implies s[i] != s[j] by {
                assert(s[i] == uv[i] && s[j] == uv[j]);
            }
        }
        assert((u.drop_last() + v).no_duplicates()) by {
            let s = u.drop_last() + v;
            assert forall|i: int, j: int| 0 <= i < s.len() && 0 <= j < s.len() && i != j implies s[i] != s[j] by {
                let x = if i < u.len() - 1 { i } else { i + 1 };
                let y = if j < u.len() - 1 { j } else { j + 1 };
                assert(s[i] == uv[x] && s[j] == uv[y]);
            }
        }
        lemma_shuffle_distinct(u, v.drop_last());
        lemma_shuffle_distinct(u.drop_last(), v);
        let first = interleavings(u, v.drop_last());
        let second = interleavings(u.drop_last(), v);
        assert forall|i: int, j: int| 0 <= i < all.len() && 0 <= j < all.len() && i != j implies all[i] != all[j] by {
            let n = first.len() as int;
            if i < n && j < n {
                assert(all[i] == first[i].push(b) && all[j] == first[j].push(b));
                assert(first[i] != first[j]);
                if all[i] == all[j] {
                    assert(first[i] =~= all[i].drop_last());
                    assert(first[j] =~= all[j].drop_last());
                }
            } else if i >= n && j >= n {
                assert(all[i] == second[i - n].push(a) && all[j] == second[j - n].push(a));
                assert(second[i - n] != second[j - n]);
                if all[i] == all[j] {
                    assert(second[i - n] =~= all[i].drop_last());
                    assert(second[j - n] =~= all[j].drop_last());
                }
            } else if i < n {
                assert(all[i] == first[i].push(b) && all[j] == second[j - n].push(a));
                assert(all[i].last() == b && all[j].last() == a);
            } else {
                assert(all[i] == second[i - n].push(a) && all[j] == first[j].push(b));
                assert(all[i].last() == a && all[j].last() == b);
            }
        }
    }
    if u.len() + v.len() > 0 {
        assert forall|w: Word| #[trigger] shuffle_map(u, v).contains_key(w) implies shuffle_map(u, v)[w] == 1 by {
            lemma_occurrences_distinct(all, w);
        }
    }
}

} // verus!
