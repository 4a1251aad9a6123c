//! The reduction of a formal sum of words to the Lyndon basis.
//!
//! The words of the sum are taken from the greatest down. A Lyndon word is
//! kept. Any other word is replaced by what the shuffle of its Lyndon factors
//! says it is, up to products: a combination of smaller words.

use vstd::prelude::*;
use crate::base::vector_like::{Atom, VectorLike};
use crate::base::word_order::{WordOrder, word_less, lemma_less_witness};
use crate::math::linear::{ArithmeticError, Coeff, Linear, LinearMonom, term_list, result_view};
use crate::math::lyndon::{lyndon_factors, lyndon_factorize, factorial, factorial_of, concat_all,
    lemma_lyndon_factors, is_lyndon, lemma_lyndon_single, lemma_letter_is_lyndon};
use crate::math::shuffle::{shuffle_multi_map, shuffle_product_multi, sorted_terms, unit_terms,
    letters_in, all_letters_in, keys_within, keys_rearrange, rearranges};
use crate::math::terms::{Word, SumMap, TermSeq, fits, coeff, coeff_in, add_term, collect, canonical,
    all_fit, all_divisible, map_div, zero_free, lemma_canonical_unique,
    lemma_canonical_distinct, lemma_coeff_in_distinct, lemma_coeff_in_prepend,
    lemma_collect_canonical, lemma_collect_coeff, lemma_same_coeffs};

verus! {

/// The product of the factorials of the coefficients of a list of terms,
/// multiplied up term by term; `None` where a factorial or a product leaves
/// the range of the coefficient type.
pub open spec fn denominator_of(t: TermSeq) -> Option<int>
    decreases t.len(),
{
    if t.len() == 0 {
        Some(1)
    } else {
        match denominator_of(t.drop_last()) {
            None => None,
            Some(d) => {
                let f = factorial_of(t.last().1);
                if fits(f) && fits(d * f) {
                    Some(d * f)
                } else {
                    None
                }
            },
        }
    }
}

/// What a word that is no Lyndon word is replaced by, up to sign: the
/// shuffle product of its Lyndon factors, divided by the factorials of the
/// multiplicities of the factors, without the word itself.
pub open spec fn remainder_of(w: Word) -> Result<SumMap, ArithmeticError> {
    let fs = lyndon_factors(w);
    if fs.len() > i32::MAX {
        Err(ArithmeticError::Overflow)
    } else {
        match denominator_of(sorted_terms(collect(unit_terms(fs)))) {
            None => Err(ArithmeticError::Overflow),
            Some(d) => match shuffle_multi_map(fs) {
                None => Err(ArithmeticError::Overflow),
                Some(sh) => if !all_divisible(sh, d) {
                    Err(ArithmeticError::NotDivisible)
                } else if !all_fit(map_div(sh, d)) {
                    Err(ArithmeticError::Overflow)
                } else if coeff(map_div(sh, d), w) != 1 {
                    Err(ArithmeticError::NotUnit)
                } else {
                    Ok(add_term(map_div(sh, d), w, -1))
                },
            },
        }
    }
}

/// Takes `c` times each term of the list from the pending sum, from the last
/// term of the list to the first. Fails on a term whose word is not smaller
/// than `w`, and where a coefficient leaves the range of the coefficient type.
pub open spec fn merge_remainder(pending: SumMap, t: TermSeq, c: int, w: Word) -> Result<
    SumMap,
    ArithmeticError,
>
    decreases t.len(),
{
    if t.len() == 0 {
        Ok(pending)
    } else {
        let m = t.last().0;
        let ic = t.last().1;
        if !word_less(m, w) {
            Err(ArithmeticError::NotSmaller)
        } else if !fits(c * ic) || !fits(coeff(pending, m) - c * ic) {
            Err(ArithmeticError::Overflow)
        } else {
            merge_remainder(add_term(pending, m, -(c * ic)), t.drop_last(), c, w)
        }
    }
}

/// A word that the reduction keeps: a single letter, or a word that is its
/// own Lyndon factorization.
pub open spec fn is_kept(w: Word) -> bool {
    w.len() == 1 || lyndon_factors(w).len() == 1
}

/// One step of the reduction: the greatest pending word is moved to the
/// result if it is kept, and replaced by its remainder otherwise.
pub open spec fn basis_step(pending: SumMap, done: SumMap) -> Result<
    (SumMap, SumMap),
    ArithmeticError,
> {
    let top = sorted_terms(pending).last();
    let w = top.0;
    let c = top.1;
    let rest = pending.remove(w);
    if is_kept(w) {
        if fits(coeff(done, w) + c) {
            Ok((rest, add_term(done, w, c)))
        } else {
            Err(ArithmeticError::Overflow)
        }
    } else {
        match remainder_of(w) {
            Err(e) => Err(e),
            Ok(rem) => match merge_remainder(rest, sorted_terms(rem), c, w) {
                Err(e) => Err(e),
                Ok(next_pending) => Ok((next_pending, done)),
            },
        }
    }
}

/// The reduction run for at most `fuel` steps: `None` if it has not come to
/// an end by then.
pub open spec fn basis_run(pending: SumMap, done: SumMap, fuel: nat) -> Option<
    Result<SumMap, ArithmeticError>,
>
    decreases fuel,
{
    if pending == Map::<Seq<int>, int>::empty() {
        Some(Ok(done))
    } else if fuel == 0 {
        None
    } else {
        match basis_step(pending, done) {
            Err(e) => Some(Err(e)),
            Ok(s) => basis_run(s.0, s.1, (fuel - 1) as nat),
        }
    }
}

/// `r` is what the reduction of `e` to the Lyndon basis comes to.
pub open spec fn lyndon_basis_of(e: SumMap, r: Result<SumMap, ArithmeticError>) -> bool {
    exists|fuel: nat| basis_run(e, Map::<Seq<int>, int>::empty(), fuel) == Some(r)
}

/// The digit that stands for the letter at `i`: zero where the word has ended.
pub open spec fn digit(w: Word, i: int, lo: int) -> int {
    if 0 <= i < w.len() {
        w[i] - lo + 1
    } else {
        0
    }
}

/// The number that the first `j` digits of a word write in the given base.
pub open spec fn horner(w: Word, j: int, lo: int, base: int) -> int
    decreases j,
{
    if j <= 0 {
        0
    } else {
        horner(w, j - 1, lo, base) * base + digit(w, j - 1, lo)
    }
}

/// The word has at most `len` letters, all in the range from `lo` to `hi`.
pub open spec fn within(w: Word, len: int, lo: int, hi: int) -> bool {
    w.len() <= len && letters_in(w, lo, hi)
}

/// The number by which the progress of the reduction is measured: one more
/// than the number that the greatest pending word writes.
pub open spec fn top_rank(t: TermSeq, len: int, lo: int, hi: int) -> int {
    if t.len() == 0 {
        0
    } else {
        horner(t.last().0, len, lo, hi - lo + 2) + 1
    }
}

proof fn lemma_horner_nonneg(w: Word, j: int, lo: int, hi: int)
    requires
        letters_in(w, lo, hi),
        lo <= hi,
    ensures
        horner(w, j, lo, hi - lo + 2) >= 0,
    decreases j,
{
    if j > 0 {
        lemma_horner_nonneg(w, j - 1, lo, hi);
        let h = horner(w, j - 1, lo, hi - lo + 2);
        let b = hi - lo + 2;
        assert(h * b >= 0) by (nonlinear_arith)
            requires
                h >= 0,
                b >= 0,
        ;
        if 0 <= j - 1 < w.len() {
            assert(lo <= w[j - 1] <= hi);
        }
    }
}

proof fn lemma_horner_agree(a: Word, b: Word, j: int, lo: int, base: int)
    requires
        0 <= j <= a.len(),
        j <= b.len(),
        forall|i: int| 0 <= i < j ==> a[i] == b[i],
    ensures
        horner(a, j, lo, base) == horner(b, j, lo, base),
    decreases j,
{
    if j > 0 {
        lemma_horner_agree(a, b, j - 1, lo, base);
    }
}

proof fn lemma_horner_gap(a: Word, b: Word, d: int, j: int, lo: int, hi: int)
    requires
        0 <= d < j,
        d <= a.len(),
        d < b.len(),
        forall|i: int| 0 <= i < d ==> a[i] == b[i],
        digit(a, d, lo) < digit(b, d, lo),
        letters_in(a, lo, hi),
        letters_in(b, lo, hi),
        lo <= hi,
    ensures
        horner(a, j, lo, hi - lo + 2) + 1 <= horner(b, j, lo, hi - lo + 2),
    decreases j,
{
    let base = hi - lo + 2;
    if j == d + 1 {
        lemma_horner_agree(a, b, d, lo, base);
    } else {
        lemma_horner_gap(a, b, d, j - 1, lo, hi);
        let ha = horner(a, j - 1, lo, base);
        let hb = horner(b, j - 1, lo, base);
        let da = digit(a, j - 1, lo);
        let db = digit(b, j - 1, lo);
        if 0 <= j - 1 < a.len() {
            assert(lo <= a[j - 1] <= hi);
        }
        if 0 <= j - 1 < b.len() {
            assert(lo <= b[j - 1] <= hi);
        }
        assert(ha * base + da + 1 <= hb * base + db) by (nonlinear_arith)
            requires
                ha + 1 <= hb,
                base >= 1,
                0 <= da <= base - 1,
                db >= 0,
        ;
    }
}

/// A smaller word writes a smaller number.
proof fn lemma_rank_monotone(a: Word, b: Word, len: int, lo: int, hi: int)
    requires
        within(a, len, lo, hi),
        within(b, len, lo, hi),
        word_less(a, b),
        lo <= hi,
    ensures
        0 <= horner(a, len, lo, hi - lo + 2) < horner(b, len, lo, hi - lo + 2),
{
    let d = lemma_less_witness(a, b);
    assert(forall|i: int| 0 <= i < d ==> a[i] == b[i]);
    assert(lo <= b[d] <= hi);
    if d < a.len() {
        assert(lo <= a[d] <= hi);
    }
    lemma_horner_gap(a, b, d, len, lo, hi);
    lemma_horner_nonneg(a, len, lo, hi);
}

/// A range that holds the letters of a word.
proof fn lemma_word_bounds(w: Word) -> (b: (int, int))
    ensures
        b.0 <= b.1,
        letters_in(w, b.0, b.1),
    decreases w.len(),
{
    if w.len() == 0 {
        (0, 0)
    } else {
        let r = lemma_word_bounds(w.drop_last());
        let x = w.last();
        let lo = if x < r.0 { x } else { r.0 };
        let hi = if x > r.1 { x } else { r.1 };
        assert forall|i: int| 0 <= i < w.len() implies lo <= #[trigger] w[i] <= hi by {
            if i < w.len() - 1 {
                assert(w.drop_last()[i] == w[i]);
            }
        }
        (lo, hi)
    }
}

/// A length and a range of letters within which all the words of a list are.
proof fn lemma_bounds_exist(t: TermSeq) -> (b: (int, int, int))
    ensures
        b.1 <= b.2,
        forall|i: int| 0 <= i < t.len() ==> within((#[trigger] t[i]).0, b.0, b.1, b.2),
    decreases t.len(),
{
    if t.len() == 0 {
        (0, 0, 0)
    } else {
        let r = lemma_bounds_exist(t.drop_last());
        let wb = lemma_word_bounds(t.last().0);
        let len = if t.last().0.len() > r.0 { t.last().0.len() as int } else { r.0 };
        let lo = if wb.0 < r.1 { wb.0 } else { r.1 };
        let hi = if wb.1 > r.2 { wb.1 } else { r.2 };
        assert forall|i: int| 0 <= i < t.len() implies within((#[trigger] t[i]).0, len, lo, hi) by {
            if i < t.len() - 1 {
                assert(t.drop_last()[i] == t[i]);
                assert(within(t.drop_last()[i].0, r.0, r.1, r.2));
            }
        }
        (len, lo, hi)
    }
}

/// The letters of the words of a list are letters of the words written one
/// after the other.
pub proof fn lemma_concat_letters(fs: Seq<Word>, lo: int, hi: int)
    requires
        letters_in(concat_all(fs), lo, hi),
    ensures
        all_letters_in(fs, lo, hi),
    decreases fs.len(),
{
    if fs.len() > 0 {
        let rest = concat_all(fs.skip(1));
        let all = concat_all(fs);
        assert(all == fs[0] + rest);
        assert forall|i: int| 0 <= i < rest.len() implies lo <= #[trigger] rest[i] <= hi by {
            assert(all[fs[0].len() + i] == rest[i]);
        }
        lemma_concat_letters(fs.skip(1), lo, hi);
        assert forall|j: int| 0 <= j < fs.len() implies letters_in(#[trigger] fs[j], lo, hi) by {
            if j == 0 {
                assert forall|i: int| 0 <= i < fs[0].len() implies lo <= #[trigger] fs[0][i] <= hi by {
                    assert(all[i] == fs[0][i]);
                }
            } else {
                assert(fs.skip(1)[j - 1] == fs[j]);
            }
        }
    }
}

/// The product of the factorials of the coefficients of a sum.
fn denominator<M: LinearMonom>(counts: Linear<M>) -> (r: Option<Coeff>)
    ensures
        match r {
            Some(d) => denominator_of(counts.terms()) == Some(d as int),
            None => denominator_of(counts.terms()) is None,
        },
{
    let ghost t = counts.terms();
    let items = counts.into_iter();
    let mut d: Coeff = 1;
    let mut i: usize = 0;
    assert(t.take(0) =~= Seq::<(Seq<int>, int)>::empty());
    while i < items.len()
        invariant
            i <= items@.len(),
            term_list(items@) == t,
            t == counts.terms(),
            denominator_of(t.take(i as int)) == Some(d as int),
        decreases items@.len() - i,
    {
        proof {
            assert(t.take(i + 1).drop_last() =~= t.take(i as int));
            assert(t.take(i + 1).last() == t[i as int]);
            assert(t[i as int].1 == items@[i as int].1);
        }
        let step = match factorial(items[i].1) {
            None => None,
            Some(f) => d.checked_mul(f),
        };
        match step {
            None => {
                proof {
                    lemma_denominator_none(t, i + 1);
                }
                return None;
            },
            Some(n) => {
                d = n;
            },
        }
        i += 1;
    }
    assert(t.take(i as int) =~= t);
    Some(d)
}

/// Once the product has left the range on a beginning of the list, it has
/// left it on the list.
proof fn lemma_denominator_none(t: TermSeq, i: int)
    requires
        0 <= i <= t.len(),
        denominator_of(t.take(i)) is None,
    ensures
        denominator_of(t) is None,
    decreases t.len() - i,
{
    if i < t.len() {
        assert(t.take(i + 1).drop_last() =~= t.take(i));
        lemma_denominator_none(t, i + 1);
    } else {
        assert(t.take(i) =~= t);
    }
}

/// What replaces a word that is no Lyndon word, up to sign.
fn remainder<T: Atom, M: LinearMonom + VectorLike<T>>(word: &M) -> (r: Result<
    Linear<M>,
    ArithmeticError,
>)
    ensures
        result_view(r) == remainder_of(word.key()),
        match r {
            Ok(p) => p.wf() && keys_rearrange(p@, word.key()) && forall|lo: int, hi: int| #[trigger]
                letters_in(word.key(), lo, hi) ==> keys_within(
                    p@,
                    word.key().len() as int,
                    lo,
                    hi,
                ),
            Err(e) => true,
        },
{
    let ghost w = word.key();
    let ghost fs = lyndon_factors(w);
    let lyndon_words = lyndon_factorize(word);
    if lyndon_words.len() > 0x7fff_ffff {
        return Err(ArithmeticError::Overflow);
    }
    let lyndon_expr = Linear::<M>::from_collection(lyndon_words.as_slice());
    proof {
        assert(Seq::new(lyndon_words@.len(), |i: int| (lyndon_words@[i].key(), 1int)) =~= unit_terms(fs));
        lyndon_expr.lemma_view();
        lyndon_expr.lemma_terms_of_view(sorted_terms(lyndon_expr@));
        lemma_lyndon_factors(w);
        assert forall|lo: int, hi: int| #[trigger] letters_in(w, lo, hi) implies all_letters_in(fs, lo, hi) by {
            lemma_concat_letters(fs, lo, hi);
        }
    }
    let d = match denominator(lyndon_expr) {
        None => {
            return Err(ArithmeticError::Overflow);
        },
        Some(d) => d,
    };
    let mut shuffle_expr = match shuffle_product_multi(lyndon_words.as_slice()) {
        Err(e) => {
            return Err(ArithmeticError::Overflow);
        },
        Ok(p) => p,
    };
    let ghost sh = shuffle_expr@;
    match shuffle_expr.div_int(d) {
        Err(e) => {
            return Err(e);
        },
        Ok(_) => {},
    }
    if shuffle_expr.coeff_for(word) != 1 {
        return Err(ArithmeticError::NotUnit);
    }
    let ghost divided = shuffle_expr@;
    let res = shuffle_expr.add_to(word.duplicate(), -1);
    proof {
        assert(keys_rearrange(sh, w));
        assert forall|x: Word| #[trigger] shuffle_expr@.contains_key(x) implies rearranges(x, w) by {
            if x != w {
                assert(divided.contains_key(x));
                assert(sh.contains_key(x));
            }
        }
    }
    Ok(shuffle_expr)
}

/// Takes `coeff` times each term of the remainder from the pending sum.
fn merge_into<T: Atom, M: LinearMonom + VectorLike<T>>(
    pending: &mut Linear<M>,
    rem: Linear<M>,
    coeff: Coeff,
    word: &M,
) -> (r: Result<(), ArithmeticError>)
    requires
        old(pending).wf(),
        rem.wf(),
    ensures
        final(pending).wf(),
        final(pending).labels() == old(pending).labels(),
        match r {
            Ok(_) => merge_remainder(old(pending)@, rem.terms(), coeff as int, word.key()) == Ok::<
                SumMap,
                ArithmeticError,
            >(final(pending)@) && forall|k: Word| #[trigger]
                final(pending)@.contains_key(k) ==> old(pending)@.contains_key(k) || (
                rem@.contains_key(k) && word_less(k, word.key())),
            Err(e) => merge_remainder(old(pending)@, rem.terms(), coeff as int, word.key()) == Err::<
                SumMap,
                ArithmeticError,
            >(e),
        },
{
    let ghost t = rem.terms();
    let ghost p0 = pending@;
    let ghost c = coeff as int;
    let ghost w = word.key();
    proof {
        rem.lemma_view();
        assert(t.take(t.len() as int) =~= t);
    }
    let mut items = rem.into_iter();
    loop
        invariant
            pending.wf(),
            pending.labels() == old(pending).labels(),
            p0 == old(pending)@,
            c == coeff as int,
            w == word.key(),
            t == rem.terms(),
            items@.len() <= t.len(),
            term_list(items@) == t.take(items@.len() as int),
            merge_remainder(pending@, t.take(items@.len() as int), c, w) == merge_remainder(p0, t, c, w),
            forall|i: int| 0 <= i < t.len() ==> rem@.contains_key((#[trigger] t[i]).0),
            forall|k: Word| #[trigger] pending@.contains_key(k) ==> p0.contains_key(k) || (rem@.contains_key(k) && word_less(k, w)),
        ensures
            pending.wf(),
            pending.labels() == old(pending).labels(),
            merge_remainder(p0, t, c, w) == Ok::<SumMap, ArithmeticError>(pending@),
            forall|k: Word| #[trigger] pending@.contains_key(k) ==> p0.contains_key(k) || (rem@.contains_key(k) && word_less(k, w)),
        decreases items@.len(),
    {
        let ghost n = items@.len() as int;
        let ghost before = pending@;
        match items.pop() {
            None => {
                proof {
                    assert(t.take(0) =~= Seq::<(Seq<int>, int)>::empty());
                }
                break ;
            },
            Some(item) => {
                let (monom, inner) = item;
                proof {
                    assert(term_list(items@) =~= t.take(n - 1));
                    assert(t.take(n)[n - 1] == t[n - 1]);
                    assert(t.take(n).last() == t[n - 1]);
                    assert(t.take(n).drop_last() =~= t.take(n - 1));
                    assert((monom.key(), inner as int) == t[n - 1]);
                    assert(rem@.contains_key(t[n - 1].0));
                }
                match monom.compare(word) {
                    WordOrder::Less => {},
                    _ => {
                        return Err(ArithmeticError::NotSmaller);
                    },
                }
                let product = match coeff.checked_mul(inner) {
                    None => {
                        return Err(ArithmeticError::Overflow);
                    },
                    Some(p) => p,
                };
                let ghost k = monom.key();
                match pending.sub_from(monom, product) {
                    Err(e) => {
                        return Err(ArithmeticError::Overflow);
                    },
                    Ok(_) => {
                        proof {
                            assert(pending@ == add_term(before, k, -(c * inner)));
                            assert forall|x: Word| #[trigger] pending@.contains_key(x) implies p0.contains_key(x) || (rem@.contains_key(x) && word_less(x, w)) by {
                                if x != k {
                                    assert(before.contains_key(x));
                                }
                            }
                        }
                    },
                }
            },
        }
    }
    Ok(())
}

/// Every word of `m` is a rearrangement of a word of `e`.
pub open spec fn rearranged_from(m: SumMap, e: SumMap) -> bool {
    forall|w: Word| #[trigger] m.contains_key(w) ==> exists|v: Word| #[trigger] e.contains_key(v) && rearranges(w, v)
}

/// Rewrites a sum of words in the Lyndon basis.
///
/// The words are taken from the greatest down. A word of one letter, and a
/// word that is its own Lyndon factorization, goes to the result. Any other
/// word is replaced by the negative of its remainder: the shuffle product of
/// its Lyndon factors, divided by the factorials of their multiplicities,
/// without the word itself. The labels of the sum are dropped. Every word
/// of the result is a rearrangement of a word of the sum.
pub fn to_lyndon_basis<T: Atom, M: LinearMonom + VectorLike<T>>(expr: Linear<M>) -> (r: Result<
    Linear<M>,
    ArithmeticError,
>)
    requires
        expr.wf(),
        forall|w: Word| expr@.contains_key(w) ==> w.len() > 0,
    ensures
        lyndon_basis_of(expr@, result_view(r)),
        match r {
            Ok(p) => p.wf() && p.labels() == Map::<Seq<int>, int>::empty() && rearranged_from(p@, expr@),
            Err(e) => true,
        },
{
    let ghost e0 = expr@;
    let ghost bounds = lemma_bounds_exist(expr.terms());
    let ghost len = bounds.0;
    let ghost lo = bounds.1;
    let ghost hi = bounds.2;
    let mut terms_to_convert = expr.drop_annotations();
    let mut terms_converted = Linear::<M>::zero();
    let ghost mut steps: nat = 0;
    proof {
        terms_to_convert.lemma_view();
        assert forall|k: Word| #[trigger] terms_to_convert@.contains_key(k) implies within(k, len, lo, hi) by {
            let i = choose|i: int| 0 <= i < terms_to_convert.terms().len() && (#[trigger] terms_to_convert.terms()[i]).0 == k;
        }
    }
    loop
        invariant
            terms_to_convert.wf(),
            terms_converted.wf(),
            terms_converted.labels() == Map::<Seq<int>, int>::empty(),
            lo <= hi,
            e0 == expr@,
            forall|k: Word| #[trigger] terms_to_convert@.contains_key(k) ==> within(k, len, lo, hi) && k.len() > 0,
            rearranged_from(terms_to_convert@, e0),
            rearranged_from(terms_converted@, e0),
            forall|f: nat| #[trigger] basis_run(e0, Map::<Seq<int>, int>::empty(), steps + f) == basis_run(terms_to_convert@, terms_converted@, f),
        ensures
            terms_converted.wf(),
            terms_converted.labels() == Map::<Seq<int>, int>::empty(),
            rearranged_from(terms_converted@, e0),
            lyndon_basis_of(e0, Ok::<SumMap, ArithmeticError>(terms_converted@)),
        decreases top_rank(terms_to_convert.terms(), len, lo, hi),
    {
        let ghost pending = terms_to_convert@;
        let ghost done = terms_converted@;
        let ghost t = terms_to_convert.terms();
        proof {
            terms_to_convert.lemma_view();
            terms_to_convert.lemma_terms_of_view(sorted_terms(pending));
        }
        let (word, coeff) = match terms_to_convert.pop_last() {
            None => {
                proof {
                    assert(pending =~= Map::<Seq<int>, int>::empty());
                    assert(basis_run(e0, Map::<Seq<int>, int>::empty(), steps + 0) == basis_run(pending, done, 0));
                    assert(basis_run(e0, Map::<Seq<int>, int>::empty(), steps) == Some(Ok::<SumMap, ArithmeticError>(done)));
                }
                break ;
            },
            Some(item) => item,
        };
        let ghost w = word.key();
        let ghost c = coeff as int;
        let ghost rest = terms_to_convert@;
        proof {
            assert(pending.contains_key(w));
            assert(pending != Map::<Seq<int>, int>::empty());
            assert(sorted_terms(pending).last() == (w, c));
            assert(within(w, len, lo, hi));
            lemma_horner_nonneg(w, len, lo, hi);
            terms_to_convert.lemma_view();
            // Every word that is left is smaller than the one taken.
            assert forall|k: Word| #[trigger] rest.contains_key(k) implies word_less(k, w) && within(k, len, lo, hi) && k.len() > 0 by {
                let i = choose|i: int| 0 <= i < t.drop_last().len() && (#[trigger] t.drop_last()[i]).0 == k;
                assert(t.drop_last()[i] == t[i]);
                assert(word_less(t[i].0, t[t.len() - 1].0));
                assert(pending.contains_key(k));
            }
        }
        let kept = if word.len() == 1 {
            true
        } else {
            let lyndon_words = lyndon_factorize(&word);
            lyndon_words.len() == 1
        };
        if kept {
            match terms_converted.add_to(word, coeff) {
                Err(e) => {
                    proof {
                        assert(basis_step(pending, done) == Err::<(SumMap, SumMap), ArithmeticError>(ArithmeticError::Overflow));
                        assert(basis_run(e0, Map::<Seq<int>, int>::empty(), steps + 1) == basis_run(pending, done, 1));
                    }
                    return Err(ArithmeticError::Overflow);
                },
                Ok(_) => {},
            }
        } else {
            let rem = match remainder(&word) {
                Err(e) => {
                    proof {
                        assert(basis_step(pending, done) == Err::<(SumMap, SumMap), ArithmeticError>(e));
                        assert(basis_run(e0, Map::<Seq<int>, int>::empty(), steps + 1) == basis_run(pending, done, 1));
                    }
                    return Err(e);
                },
                Ok(p) => p,
            };
            proof {
                rem.lemma_view();
                rem.lemma_terms_of_view(sorted_terms(rem@));
                assert(letters_in(w, lo, hi));
                assert(keys_within(rem@, w.len() as int, lo, hi));
            }
            match merge_into(&mut terms_to_convert, rem, coeff, &word) {
                Err(e) => {
                    proof {
                        assert(basis_step(pending, done) == Err::<(SumMap, SumMap), ArithmeticError>(e));
                        assert(basis_run(e0, Map::<Seq<int>, int>::empty(), steps + 1) == basis_run(pending, done, 1));
                    }
                    return Err(e);
                },
                Ok(_) => {},
            }
        }
        proof {
            let next_pending = terms_to_convert@;
            let next_done = terms_converted@;
            assert(basis_step(pending, done) == Ok::<(SumMap, SumMap), ArithmeticError>((next_pending, next_done)));
            assert forall|f: nat| #[trigger] basis_run(e0, Map::<Seq<int>, int>::empty(), steps + 1 + f) == basis_run(next_pending, next_done, f) by {
                assert(basis_run(e0, Map::<Seq<int>, int>::empty(), steps + (f + 1) as nat) == basis_run(pending, done, (f + 1) as nat));
                assert(steps + (f + 1) as nat == steps + 1 + f);
            }
            steps = steps + 1;
            let v = choose|v: Word| #[trigger] e0.contains_key(v) && rearranges(w, v);
            assert forall|k: Word| #[trigger] next_pending.contains_key(k) implies exists|x: Word| #[trigger] e0.contains_key(x) && rearranges(k, x) by {
                if rest.contains_key(k) {
                    assert(pending.contains_key(k));
                } else {
                    assert(e0.contains_key(v) && rearranges(k, v));
                }
            }
            assert forall|k: Word| #[trigger] next_done.contains_key(k) implies exists|x: Word| #[trigger] e0.contains_key(x) && rearranges(k, x) by {
                if !done.contains_key(k) {
                    assert(k == w);
                    assert(e0.contains_key(v) && rearranges(k, v));
                }
            }
            terms_to_convert.lemma_view();
            let next_terms = terms_to_convert.terms();
            assert forall|k: Word| #[trigger] next_pending.contains_key(k) implies word_less(k, w) && within(k, len, lo, hi) && k.len() > 0 by {
                if !rest.contains_key(k) {
                }
            }
            if next_terms.len() > 0 {
                assert(next_pending.contains_key(next_terms[next_terms.len() - 1].0));
                lemma_rank_monotone(next_terms.last().0, w, len, lo, hi);
            }
        }
    }
    Ok(terms_converted)
}

/// More fuel does not change what a run that has come to an end came to.
pub proof fn lemma_run_fuel(pending: SumMap, done: SumMap, f1: nat, f2: nat)
    requires
        basis_run(pending, done, f1) is Some,
        f1 <= f2,
    ensures
        basis_run(pending, done, f2) == basis_run(pending, done, f1),
    decreases f1,
{
    if pending == Map::<Seq<int>, int>::empty() {
    } else if f1 == 0 {
    } else {
        match basis_step(pending, done) {
            Err(e) => {},
            Ok(s) => {
                lemma_run_fuel(s.0, s.1, (f1 - 1) as nat, (f2 - 1) as nat);
            },
        }
    }
}

/// The reduction of a sum comes to one thing only.
pub proof fn lemma_basis_unique(
    e: SumMap,
    r1: Result<SumMap, ArithmeticError>,
    r2: Result<SumMap, ArithmeticError>,
)
    requires
        lyndon_basis_of(e, r1),
        lyndon_basis_of(e, r2),
    ensures
        r1 == r2,
{
    let z = Map::<Seq<int>, int>::empty();
    let f1 = choose|fuel: nat| basis_run(e, z, fuel) == Some(r1);
    let f2 = choose|fuel: nat| basis_run(e, z, fuel) == Some(r2);
    if f1 <= f2 {
        lemma_run_fuel(e, z, f1, f2);
    } else {
        lemma_run_fuel(e, z, f2, f1);
    }
}

/// Every word of the sum is a Lyndon word.
pub open spec fn all_lyndon(m: SumMap) -> bool {
    forall|w: Word| #[trigger] m.contains_key(w) ==> is_lyndon(w)
}

/// The reduction keeps exactly the Lyndon words.
pub proof fn lemma_kept_is_lyndon(w: Word)
    ensures
        is_kept(w) <==> is_lyndon(w),
{
    lemma_lyndon_single(w);
    if w.len() == 1 {
        lemma_letter_is_lyndon(w);
    }
}

/// A run that starts with Lyndon words in its result ends with Lyndon words
/// in its result.
pub proof fn lemma_run_lyndon(pending: SumMap, done: SumMap, fuel: nat, r: SumMap)
    requires
        basis_run(pending, done, fuel) == Some(Ok::<SumMap, ArithmeticError>(r)),
        all_lyndon(done),
    ensures
        all_lyndon(r),
    decreases fuel,
{
    if pending == Map::<Seq<int>, int>::empty() {
    } else if fuel == 0 {
    } else {
        match basis_step(pending, done) {
            Err(e) => {},
            Ok(s) => {
                let w = sorted_terms(pending).last().0;
                lemma_kept_is_lyndon(w);
                assert(all_lyndon(s.1)) by {
                    assert forall|x: Word| #[trigger] s.1.contains_key(x) implies is_lyndon(x) by {
                        if !done.contains_key(x) {
                            assert(x == w);
                        }
                    }
                }
                lemma_run_lyndon(s.0, s.1, (fuel - 1) as nat, r);
            },
        }
    }
}

/// All the words of a sum in the Lyndon basis are Lyndon words.
pub proof fn lemma_basis_lyndon(e: SumMap, r: SumMap)
    requires
        lyndon_basis_of(e, Ok::<SumMap, ArithmeticError>(r)),
    ensures
        all_lyndon(r),
{
    let z = Map::<Seq<int>, int>::empty();
    let fuel = choose|fuel: nat| basis_run(e, z, fuel) == Some(Ok::<SumMap, ArithmeticError>(r));
    lemma_run_lyndon(e, z, fuel, r);
}

/// A run whose pending words are the first `j` terms of a canonical list of
/// Lyndon words, and whose result so far is the rest of the list, ends with
/// the sum of the whole list.
proof fn lemma_run_fixed(t: TermSeq, j: int)
    requires
        canonical(t),
        0 <= j <= t.len(),
        forall|i: int| 0 <= i < t.len() ==> is_lyndon((#[trigger] t[i]).0) && fits(t[i].1),
    ensures
        basis_run(collect(t.take(j)), collect(t.skip(j)), j as nat) == Some(
            Ok::<SumMap, ArithmeticError>(collect(t)),
        ),
    decreases j,
{
    let pending = collect(t.take(j));
    let done = collect(t.skip(j));
    if j == 0 {
        assert(t.take(0) =~= Seq::<(Seq<int>, int)>::empty());
        assert(pending =~= Map::<Seq<int>, int>::empty());
        assert(t.skip(0) =~= t);
    } else {
        let head = t.take(j);
        let x = t[j - 1];
        let w = x.0;
        let c = x.1;
        assert(canonical(head));
        lemma_collect_canonical(head);
        assert(head[j - 1] == x);
        assert(pending.contains_key(w));
        assert(pending != Map::<Seq<int>, int>::empty());
        // The canonical list of the pending sum is the first `j` terms.
        lemma_canonical_unique(sorted_terms(pending), head);
        assert(sorted_terms(pending).last() == x);
        lemma_kept_is_lyndon(w);
        // The result so far does not hold the word.
        let tail = t.skip(j);
        lemma_canonical_distinct(t);
        assert forall|i: int| 0 <= i < tail.len() implies (#[trigger] tail[i]).0 != w by {
            assert(tail[i] == t[j + i]);
            assert(t[j - 1].0 != t[j + i].0);
        }
        assert(forall|a: int, b: int| 0 <= a < b < tail.len() ==> (#[trigger] tail[a]).0 != (#[trigger] tail[b]).0) by {
            assert forall|a: int, b: int| 0 <= a < b < tail.len() implies (#[trigger] tail[a]).0 != (#[trigger] tail[b]).0 by {
                assert(tail[a] == t[j + a] && tail[b] == t[j + b]);
            }
        }
        lemma_coeff_in_distinct(tail, w);
        lemma_collect_coeff(tail);
        assert(coeff(done, w) == 0);
        // What is left, and what the result becomes.
        let rest = pending.remove(w);
        let done2 = add_term(done, w, c);
        assert(head.drop_last() =~= t.take(j - 1));
        assert(rest =~= collect(t.take(j - 1))) by {
            lemma_canonical_distinct(head);
            assert forall|k: Word| coeff_in(head, k) == coeff_in(t.take(j - 1), k) + if w == k { c } else { 0 } by {}
            lemma_coeff_in_distinct(t.take(j - 1), w);
            assert forall|i: int| 0 <= i < t.take(j - 1).len() implies (#[trigger] t.take(j - 1)[i]).0 != w by {
                assert(t.take(j - 1)[i] == t[i]);
                assert(t[i].0 != t[j - 1].0);
            }
            assert(forall|a: int, b: int| 0 <= a < b < t.take(j - 1).len() ==> (#[trigger] t.take(j - 1)[a]).0 != (#[trigger] t.take(j - 1)[b]).0) by {
                assert forall|a: int, b: int| 0 <= a < b < t.take(j - 1).len() implies (#[trigger] t.take(j - 1)[a]).0 != (#[trigger] t.take(j - 1)[b]).0 by {
                    assert(t.take(j - 1)[a] == t[a] && t.take(j - 1)[b] == t[b]);
                }
            }
            lemma_collect_coeff(head);
            lemma_collect_coeff(t.take(j - 1));
            assert forall|k: Word| coeff(rest, k) == coeff(collect(t.take(j - 1)), k) by {
                assert(coeff_in(head, k) == coeff_in(t.take(j - 1), k) + if w == k { c } else { 0 });
            }
            assert(zero_free(rest));
            lemma_same_coeffs(rest, collect(t.take(j - 1)));
        }
        assert(done2 =~= collect(t.skip(j - 1))) by {
            assert(t.skip(j - 1) =~= seq![x] + tail);
            assert forall|k: Word| coeff_in(t.skip(j - 1), k) == coeff_in(tail, k) + if w == k { c } else { 0 } by {
                lemma_coeff_in_prepend(x, tail, k);
            }
            lemma_collect_coeff(t.skip(j - 1));
            assert forall|k: Word| coeff(done2, k) == coeff(collect(t.skip(j - 1)), k) by {
                assert(coeff_in(t.skip(j - 1), k) == coeff_in(tail, k) + if w == k { c } else { 0 });
            }
            assert(c != 0);
            assert(zero_free(done2));
            lemma_same_coeffs(done2, collect(t.skip(j - 1)));
        }
        assert(basis_step(pending, done) == Ok::<(SumMap, SumMap), ArithmeticError>((rest, done2)));
        lemma_run_fixed(t, j - 1);
    }
}

/// A sum of Lyndon words is its own reduction to the Lyndon basis. Words of
/// one letter are Lyndon words.
pub proof fn lemma_basis_fixed_point<M: LinearMonom>(p: Linear<M>)
    requires
        p.wf(),
        all_lyndon(p@),
    ensures
        lyndon_basis_of(p@, Ok::<SumMap, ArithmeticError>(p@)),
{
    let t = p.terms();
    p.lemma_view();
    assert forall|i: int| 0 <= i < t.len() implies is_lyndon((#[trigger] t[i]).0) && fits(t[i].1) by {
        assert(p@.contains_key(t[i].0));
        assert(fits(p@[t[i].0]));
    }
    lemma_run_fixed(t, t.len() as int);
    assert(t.take(t.len() as int) =~= t);
    assert(t.skip(t.len() as int) =~= Seq::<(Seq<int>, int)>::empty());
    assert(collect(t.skip(t.len() as int)) =~= Map::<Seq<int>, int>::empty());
}

/// Reducing twice is reducing once: a sum that is the reduction of some sum
/// is its own reduction.
pub proof fn lemma_basis_idempotent<M: LinearMonom>(e: SumMap, p: Linear<M>)
    requires
        p.wf(),
        lyndon_basis_of(e, Ok::<SumMap, ArithmeticError>(p@)),
    ensures
        lyndon_basis_of(p@, Ok::<SumMap, ArithmeticError>(p@)),
{
    lemma_basis_lyndon(e, p@);
    lemma_basis_fixed_point(p);
}

} // verus!
