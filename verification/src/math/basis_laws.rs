//! The reduction to the Lyndon basis is linear: the reduction of a sum of
//! two formal sums is the sum of their reductions, and the reduction of a
//! multiple of a formal sum is the multiple of its reduction.

use vstd::prelude::*;
use crate::base::word_order::{word_less, lemma_less_transitive, lemma_less_asymmetric,
    lemma_order_total};
use crate::math::linear::{ArithmeticError, Linear, LinearMonom, lemma_collect_mapped};
use crate::math::lyndon_basis::{basis_run, basis_step, is_kept, lyndon_basis_of, merge_remainder,
    remainder_of};
use crate::math::shuffle::sorted_terms;
use crate::math::terms::{SumMap, TermSeq, Word, add_term, canonical, coeff, coeff_in, collect,
    map_add, map_scale, zero_free, lemma_coeff_in_insert, lemma_coeff_in_remove, lemma_coeff_in_update,
    lemma_collect_canonical, lemma_collect_coeff, lemma_same_coeffs};

verus! {

/// The sum can be written as a list of terms in canonical form: it has
/// finitely many words, and no coefficient zero.
pub open spec fn has_canonical(m: SumMap) -> bool {
    exists|t: TermSeq| canonical(t) && collect(t) == m
}

/// The canonical list of a sum that has one.
pub proof fn lemma_sorted_terms(m: SumMap)
    requires
        has_canonical(m),
    ensures
        canonical(sorted_terms(m)),
        collect(sorted_terms(m)) == m,
        zero_free(m),
{
    lemma_collect_coeff(sorted_terms(m));
}

/// The place of the word `k` in a canonical list: the number of terms with
/// a smaller word.
pub open spec fn place(t: TermSeq, k: Word) -> int
    decreases t.len(),
{
    if t.len() == 0 {
        0
    } else if word_less(t.last().0, k) {
        t.len() as int
    } else {
        place(t.drop_last(), k)
    }
}

/// The terms before the place of `k` have smaller words, the others have not.
pub proof fn lemma_place(t: TermSeq, k: Word)
    requires
        canonical(t),
    ensures
        0 <= place(t, k) <= t.len(),
        forall|i: int| 0 <= i < place(t, k) ==> word_less((#[trigger] t[i]).0, k),
        forall|i: int| place(t, k) <= i < t.len() ==> !word_less((#[trigger] t[i]).0, k),
    decreases t.len(),
{
    if t.len() > 0 {
        if word_less(t.last().0, k) {
            assert forall|i: int| 0 <= i < t.len() implies word_less((#[trigger] t[i]).0, k) by {
                if i < t.len() - 1 {
                    assert(word_less(t[i].0, t[t.len() - 1].0));
                    lemma_less_transitive(t[i].0, t.last().0, k);
                }
            }
        } else {
            let d = t.drop_last();
            assert(canonical(d)) by {
                assert forall|i: int, j: int| 0 <= i < j < d.len() implies word_less(#[trigger] d[i].0, #[trigger] d[j].0) by {
                    assert(d[i] == t[i] && d[j] == t[j]);
                }
                assert forall|i: int| 0 <= i < d.len() implies (#[trigger] d[i]).1 != 0 by {
                    assert(d[i] == t[i]);
                }
            }
            lemma_place(d, k);
            assert forall|i: int| 0 <= i < place(t, k) implies word_less((#[trigger] t[i]).0, k) by {
                assert(d[i] == t[i]);
            }
            assert forall|i: int| place(t, k) <= i < t.len() implies !word_less((#[trigger] t[i]).0, k) by {
                if i < d.len() {
                    assert(d[i] == t[i]);
                }
            }
        }
    }
}

/// A sum that has a canonical list still has one after a term was added.
pub proof fn lemma_add_term_canonical(m: SumMap, k: Word, v: int)
    requires
        has_canonical(m),
    ensures
        has_canonical(add_term(m, k, v)),
{
    let t = sorted_terms(m);
    lemma_sorted_terms(m);
    lemma_place(t, k);
    lemma_collect_canonical(t);
    let p = place(t, k);
    let out = add_term(m, k, v);
    assert(zero_free(out));
    if p < t.len() && t[p].0 == k {
        let c = t[p].1;
        assert(m.contains_key(t[p].0) && m[t[p].0] == c);
        if c + v == 0 {
            let s = t.remove(p);
            assert(canonical(s)) by {
                assert forall|i: int, j: int| 0 <= i < j < s.len() implies word_less(#[trigger] s[i].0, #[trigger] s[j].0) by {
                    let a = if i < p { i } else { i + 1 };
                    let b = if j < p { j } else { j + 1 };
                    assert(s[i] == t[a] && s[j] == t[b]);
                }
                assert forall|i: int| 0 <= i < s.len() implies (#[trigger] s[i]).1 != 0 by {
                    let a = if i < p { i } else { i + 1 };
                    assert(s[i] == t[a]);
                }
            }
            lemma_collect_coeff(s);
            assert forall|w: Word| coeff(collect(s), w) == coeff(out, w) by {
                lemma_coeff_in_remove(t, p, w);
            }
            lemma_same_coeffs(collect(s), out);
        } else {
            let s = t.update(p, (k, c + v));
            assert(canonical(s)) by {
                assert forall|i: int, j: int| 0 <= i < j < s.len() implies word_less(#[trigger] s[i].0, #[trigger] s[j].0) by {
                    assert(s[i].0 == t[i].0 && s[j].0 == t[j].0);
                }
                assert forall|i: int| 0 <= i < s.len() implies (#[trigger] s[i]).1 != 0 by {
                    if i != p {
                        assert(s[i] == t[i]);
                    }
                }
            }
            lemma_collect_coeff(s);
            assert forall|w: Word| coeff(collect(s), w) == coeff(out, w) by {
                lemma_coeff_in_update(t, p, (k, c + v), w);
            }
            lemma_same_coeffs(collect(s), out);
        }
    } else {
        // The word is not in the list.
        assert forall|i: int| 0 <= i < t.len() implies (#[trigger] t[i]).0 != k && (i >= p ==> word_less(k, t[i].0)) by {
            lemma_less_asymmetric(t[i].0, k);
            if i >= p {
                lemma_order_total(t[p].0, k);
                assert(word_less(k, t[p].0));
                if i > p {
                    assert(word_less(t[p].0, t[i].0));
                    lemma_less_transitive(k, t[p].0, t[i].0);
                }
                lemma_less_asymmetric(k, t[i].0);
            }
        }
        assert(!m.contains_key(k)) by {
            if m.contains_key(k) {
                let i = choose|i: int| 0 <= i < t.len() && (#[trigger] t[i]).0 == k;
            }
        }
        if v == 0 {
            assert(out =~= m);
        } else {
            let s = t.insert(p, (k, v));
            assert(canonical(s)) by {
                assert forall|i: int, j: int| 0 <= i < j < s.len() implies word_less(#[trigger] s[i].0, #[trigger] s[j].0) by {
                    if j < p {
                        assert(s[i] == t[i] && s[j] == t[j]);
                    } else if j == p {
                        assert(s[i] == t[i]);
                    } else if i < p {
                        assert(s[i] == t[i] && s[j] == t[j - 1]);
                        lemma_less_transitive(t[i].0, k, t[j - 1].0);
                    } else if i == p {
                        assert(s[j] == t[j - 1]);
                    } else {
                        assert(s[i] == t[i - 1] && s[j] == t[j - 1]);
                    }
                }
                assert forall|i: int| 0 <= i < s.len() implies (#[trigger] s[i]).1 != 0 by {
                    if i < p {
                        assert(s[i] == t[i]);
                    } else if i > p {
                        assert(s[i] == t[i - 1]);
                    }
                }
            }
            lemma_collect_coeff(s);
            assert forall|w: Word| coeff(collect(s), w) == coeff(out, w) by {
                lemma_coeff_in_insert(t, p, (k, v), w);
            }
            lemma_same_coeffs(collect(s), out);
        }
    }
}

/// A sum that is stored in canonical form has a canonical list.
pub proof fn lemma_stored_canonical<M: LinearMonom>(x: Linear<M>)
    requires
        x.wf(),
    ensures
        has_canonical(x@),
{
    x.lemma_view();
    assert(canonical(x.terms()) && collect(x.terms()) == x@);
}

/// The sum of a sum that has a canonical list and the first `i` terms of a
/// list has a canonical list.
proof fn lemma_add_terms_canonical(a: SumMap, t: TermSeq, i: int)
    requires
        has_canonical(a),
        0 <= i <= t.len(),
    ensures
        has_canonical(map_add(a, collect(t.take(i)))),
    decreases i,
{
    lemma_sorted_terms(a);
    if i == 0 {
        assert(map_add(a, collect(t.take(0))) =~= a);
    } else {
        lemma_add_terms_canonical(a, t, i - 1);
        let before = map_add(a, collect(t.take(i - 1)));
        let after = map_add(a, collect(t.take(i)));
        assert(t.take(i).drop_last() =~= t.take(i - 1));
        assert(t.take(i).last() == t[i - 1]);
        lemma_add_term_canonical(before, t[i - 1].0, t[i - 1].1);
        lemma_sorted_terms(before);
        lemma_collect_coeff(t.take(i));
        lemma_collect_coeff(t.take(i - 1));
        assert forall|w: Word| coeff(add_term(before, t[i - 1].0, t[i - 1].1), w) == coeff(after, w) by {
            assert(coeff(collect(t.take(i)), w) == coeff_in(t.take(i), w));
            assert(coeff(collect(t.take(i - 1)), w) == coeff_in(t.take(i - 1), w));
        }
        lemma_same_coeffs(add_term(before, t[i - 1].0, t[i - 1].1), after);
    }
}

/// The sum of two sums that have canonical lists has one.
pub proof fn lemma_sum_canonical(a: SumMap, b: SumMap)
    requires
        has_canonical(a),
        has_canonical(b),
    ensures
        has_canonical(map_add(a, b)),
{
    let t = sorted_terms(b);
    lemma_sorted_terms(b);
    lemma_add_terms_canonical(a, t, t.len() as int);
    assert(t.take(t.len() as int) =~= t);
}

/// A multiple of a sum that has a canonical list has one.
pub proof fn lemma_multiple_canonical(a: SumMap, k: int)
    requires
        has_canonical(a),
    ensures
        has_canonical(map_scale(a, k)),
{
    let t = sorted_terms(a);
    lemma_sorted_terms(a);
    lemma_collect_canonical(t);
    if k == 0 {
        let none = Seq::<(Seq<int>, int)>::empty();
        assert(canonical(none));
        assert(collect(none) =~= map_scale(a, 0)) by {
            assert forall|w: Word| !map_scale(a, 0).contains_key(w) by {
                assert(0 * coeff(a, w) == 0);
            }
        }
    } else {
        let s = Seq::new(t.len(), |j: int| (t[j].0, k * t[j].1));
        assert forall|j: int| 0 <= j < t.len() implies k * (#[trigger] t[j]).1 != 0 by {
            let c = t[j].1;
            assert(k * c != 0) by (nonlinear_arith)
                requires
                    k != 0,
                    c != 0,
            ;
        }
        lemma_collect_mapped(t, s, |c: int| k * c);
        lemma_collect_coeff(s);
        assert forall|w: Word| coeff(collect(s), w) == coeff(map_scale(a, k), w) by {
            if !a.contains_key(w) {
                assert(k * 0 == 0);
            }
        }
        lemma_same_coeffs(collect(s), map_scale(a, k));
    }
}

/// The greatest word of a sum.
pub open spec fn top_word(p: SumMap) -> Word {
    sorted_terms(p).last().0
}

/// The greatest word of a sum that is not empty is a word of the sum, and
/// every other word of the sum is smaller.
pub proof fn lemma_top(p: SumMap)
    requires
        has_canonical(p),
        p != Map::<Seq<int>, int>::empty(),
    ensures
        sorted_terms(p).len() > 0,
        p.contains_key(top_word(p)),
        p[top_word(p)] == sorted_terms(p).last().1,
        p[top_word(p)] != 0,
        forall|x: Word| #[trigger] p.contains_key(x) ==> x == top_word(p) || word_less(x, top_word(p)),
{
    let t = sorted_terms(p);
    lemma_sorted_terms(p);
    if t.len() == 0 {
        assert(collect(t) =~= Map::<Seq<int>, int>::empty());
    }
    lemma_collect_canonical(t);
    assert(p.contains_key(t[t.len() - 1].0));
    assert forall|x: Word| #[trigger] p.contains_key(x) implies x == top_word(p) || word_less(x, top_word(p)) by {
        let i = choose|i: int| 0 <= i < t.len() && (#[trigger] t[i]).0 == x;
        if i < t.len() - 1 {
            assert(word_less(t[i].0, t[t.len() - 1].0));
        }
    }
}

/// What one step of the reduction takes from the pending sum, for each unit
/// of the coefficient of the word `w` that the step takes up: the word
/// itself and, if the word is not kept, its remainder.
pub open spec fn pending_shift(w: Word, x: Word) -> int {
    (if x == w {
        1int
    } else {
        0int
    }) + (if is_kept(w) {
        0int
    } else {
        match remainder_of(w) {
            Ok(rem) => coeff_in(sorted_terms(rem), x),
            Err(_) => 0int,
        }
    })
}

/// What one step of the reduction adds to the result, for each unit of the
/// coefficient of the word `w` that the step takes up.
pub open spec fn done_shift(w: Word, x: Word) -> int {
    if is_kept(w) && x == w {
        1
    } else {
        0
    }
}

/// What taking the terms of a remainder from the pending sum comes to.
pub proof fn lemma_merge_remainder(p: SumMap, t: TermSeq, c: int, w: Word, q: SumMap)
    requires
        has_canonical(p),
        merge_remainder(p, t, c, w) == Ok::<SumMap, ArithmeticError>(q),
    ensures
        has_canonical(q),
        forall|x: Word| coeff(q, x) == coeff(p, x) - c * #[trigger] coeff_in(t, x),
    decreases t.len(),
{
    if t.len() == 0 {
        assert forall|x: Word| coeff(q, x) == coeff(p, x) - c * #[trigger] coeff_in(t, x) by {
            assert(c * 0 == 0);
        }
    } else {
        let m = t.last().0;
        let ic = t.last().1;
        let next = add_term(p, m, -(c * ic));
        lemma_add_term_canonical(p, m, -(c * ic));
        lemma_merge_remainder(next, t.drop_last(), c, w, q);
        assert forall|x: Word| coeff(q, x) == coeff(p, x) - c * #[trigger] coeff_in(t, x) by {
            let rest = coeff_in(t.drop_last(), x);
            assert(coeff(q, x) == coeff(next, x) - c * rest);
            if x == m {
                assert(c * (rest + ic) == c * rest + c * ic) by (nonlinear_arith);
            } else {
                assert(c * (rest + 0) == c * rest) by (nonlinear_arith);
            }
        }
    }
}

/// What one step of the reduction does, coefficient by coefficient.
pub proof fn lemma_step(p: SumMap, d: SumMap, s: (SumMap, SumMap))
    requires
        has_canonical(p),
        p != Map::<Seq<int>, int>::empty(),
        zero_free(d),
        basis_step(p, d) == Ok::<(SumMap, SumMap), ArithmeticError>(s),
    ensures
        has_canonical(s.0),
        zero_free(s.1),
        forall|x: Word| coeff(s.0, x) == coeff(p, x) - p[top_word(p)] * #[trigger] pending_shift(top_word(p), x),
        forall|x: Word| coeff(s.1, x) == coeff(d, x) + p[top_word(p)] * #[trigger] done_shift(top_word(p), x),
{
    lemma_top(p);
    let w = top_word(p);
    let c = p[w];
    let rest = p.remove(w);
    assert(rest =~= add_term(p, w, -c));
    lemma_add_term_canonical(p, w, -c);
    if is_kept(w) {
        assert forall|x: Word| coeff(s.0, x) == coeff(p, x) - c * #[trigger] pending_shift(w, x) by {
            assert(c * 1 == c && c * 0 == 0);
        }
        assert forall|x: Word| coeff(s.1, x) == coeff(d, x) + c * #[trigger] done_shift(w, x) by {
            assert(c * 1 == c && c * 0 == 0);
        }
    } else {
        let rem = remainder_of(w)->Ok_0;
        let t = sorted_terms(rem);
        lemma_merge_remainder(rest, t, c, w, s.0);
        assert forall|x: Word| coeff(s.0, x) == coeff(p, x) - c * #[trigger] pending_shift(w, x) by {
            let r = coeff_in(t, x);
            assert(coeff(s.0, x) == coeff(rest, x) - c * r);
            if x == w {
                assert(c * (1 + r) == c + c * r) by (nonlinear_arith);
            } else {
                assert(c * (0 + r) == c * r) by (nonlinear_arith);
            }
        }
        assert forall|x: Word| coeff(s.1, x) == coeff(d, x) + c * #[trigger] done_shift(w, x) by {
            assert(c * 0 == 0);
        }
    }
}

/// Two runs of the reduction and the run on the sum of their states: the
/// pending sums and the results so far of the third are the sums of those of
/// the first two, and each run ends with a result.
pub open spec fn runs_together(
    first: (SumMap, SumMap, nat, SumMap),
    second: (SumMap, SumMap, nat, SumMap),
    both: (SumMap, SumMap, nat, SumMap),
) -> bool {
    &&& has_canonical(first.0) && has_canonical(second.0) && has_canonical(both.0)
    &&& zero_free(first.1) && zero_free(second.1) && zero_free(both.1)
    &&& both.0 == map_add(first.0, second.0)
    &&& both.1 == map_add(first.1, second.1)
    &&& basis_run(first.0, first.1, first.2) == Some(Ok::<SumMap, ArithmeticError>(first.3))
    &&& basis_run(second.0, second.1, second.2) == Some(Ok::<SumMap, ArithmeticError>(second.3))
    &&& basis_run(both.0, both.1, both.2) == Some(Ok::<SumMap, ArithmeticError>(both.3))
}

/// Where the greatest pending word of the first run is not smaller than any
/// pending word of the second, the runs that take up this word go one step,
/// and the three runs are together again.
proof fn lemma_lead(
    first: (SumMap, SumMap, nat, SumMap),
    second: (SumMap, SumMap, nat, SumMap),
    both: (SumMap, SumMap, nat, SumMap),
) -> (next: ((SumMap, SumMap, nat, SumMap), (SumMap, SumMap, nat, SumMap), (SumMap, SumMap, nat, SumMap)))
    requires
        runs_together(first, second, both),
        first.0 != Map::<Seq<int>, int>::empty(),
        forall|x: Word| #[trigger] second.0.contains_key(x) ==> x == top_word(first.0) || word_less(x, top_word(first.0)),
    ensures
        runs_together(next.0, next.1, next.2),
        next.0.2 + next.1.2 < first.2 + second.2,
        next.0.3 == first.3,
        next.1.3 == second.3,
        next.2.3 == both.3,
{
    let nothing = Map::<Seq<int>, int>::empty();
    let (pa, da, fa, ra) = first;
    let (pb, db, fb, rb) = second;
    let (pc, dc, fc, rc) = both;
    lemma_top(pa);
    lemma_sorted_terms(pb);
    lemma_sorted_terms(pc);
    let w = top_word(pa);
    let ca = pa[w];
    let cb = coeff(pb, w);
    // The first run takes up the word.
    let sa = basis_step(pa, da)->Ok_0;
    lemma_step(pa, da, sa);
    let na = (sa.0, sa.1, (fa - 1) as nat, ra);
    // The second run takes it up if it holds it.
    let nb = if cb != 0 {
        let sb = basis_step(pb, db)->Ok_0;
        (sb.0, sb.1, (fb - 1) as nat, rb)
    } else {
        second
    };
    if cb != 0 {
        assert(pb.contains_key(w));
        assert(pb != nothing);
        lemma_top(pb);
        lemma_less_asymmetric(w, top_word(pb));
        assert(top_word(pb) == w);
        lemma_step(pb, db, basis_step(pb, db)->Ok_0);
    }
    assert forall|x: Word| coeff(nb.0, x) == coeff(pb, x) - cb * #[trigger] pending_shift(w, x) by {
        if cb == 0 {
            assert(0 * pending_shift(w, x) == 0);
        }
    }
    assert forall|x: Word| coeff(nb.1, x) == coeff(db, x) + cb * #[trigger] done_shift(w, x) by {
        if cb == 0 {
            assert(0 * done_shift(w, x) == 0);
        }
    }
    // The run on the sum takes it up unless the coefficients cancel.
    let nc = if ca + cb != 0 {
        let sc = basis_step(pc, dc)->Ok_0;
        (sc.0, sc.1, (fc - 1) as nat, rc)
    } else {
        both
    };
    if ca + cb != 0 {
        assert(pc.contains_key(w) && pc[w] == ca + cb);
        assert(pc != nothing);
        lemma_top(pc);
        let v = top_word(pc);
        assert(pa.contains_key(v) || pb.contains_key(v));
        lemma_less_asymmetric(w, v);
        assert(v == w);
        lemma_step(pc, dc, basis_step(pc, dc)->Ok_0);
    }
    assert forall|x: Word| coeff(nc.0, x) == coeff(na.0, x) + coeff(nb.0, x) by {
        let g = pending_shift(w, x);
        assert((ca + cb) * g == ca * g + cb * g) by (nonlinear_arith);
        assert(coeff(pc, x) == coeff(pa, x) + coeff(pb, x));
        if ca + cb == 0 {
            assert(0 * g == 0);
        }
    }
    assert forall|x: Word| coeff(nc.1, x) == coeff(na.1, x) + coeff(nb.1, x) by {
        let g = done_shift(w, x);
        assert((ca + cb) * g == ca * g + cb * g) by (nonlinear_arith);
        assert(coeff(dc, x) == coeff(da, x) + coeff(db, x));
        if ca + cb == 0 {
            assert(0 * g == 0);
        }
    }
    lemma_sorted_terms(nc.0);
    lemma_same_coeffs(nc.0, map_add(na.0, nb.0));
    lemma_same_coeffs(nc.1, map_add(na.1, nb.1));
    (na, nb, nc)
}

/// Runs that are together end together: the result of the run on the sum
/// is the sum of the results.
proof fn lemma_runs_add(
    first: (SumMap, SumMap, nat, SumMap),
    second: (SumMap, SumMap, nat, SumMap),
    both: (SumMap, SumMap, nat, SumMap),
)
    requires
        runs_together(first, second, both),
    ensures
        both.3 == map_add(first.3, second.3),
    decreases first.2 + second.2,
{
    let nothing = Map::<Seq<int>, int>::empty();
    if first.0 == nothing && second.0 == nothing {
        assert(map_add(nothing, nothing) =~= nothing);
    } else {
        let first_leads = first.0 != nothing && (second.0 == nothing || !word_less(
            top_word(first.0),
            top_word(second.0),
        ));
        if first_leads {
            if second.0 != nothing {
                lemma_top(second.0);
                assert forall|x: Word| #[trigger] second.0.contains_key(x) implies x == top_word(first.0) || word_less(
                    x,
                    top_word(first.0),
                ) by {
                    lemma_order_total(top_word(first.0), top_word(second.0));
                    if x != top_word(second.0) && top_word(second.0) != top_word(first.0) {
                        lemma_less_transitive(x, top_word(second.0), top_word(first.0));
                    }
                }
            }
            let next = lemma_lead(first, second, both);
            lemma_runs_add(next.0, next.1, next.2);
        } else {
            assert(map_add(second.0, first.0) =~= map_add(first.0, second.0));
            assert(map_add(second.1, first.1) =~= map_add(first.1, second.1));
            if first.0 != nothing {
                lemma_top(first.0);
                assert forall|x: Word| #[trigger] first.0.contains_key(x) implies x == top_word(second.0) || word_less(
                    x,
                    top_word(second.0),
                ) by {
                    if x != top_word(first.0) {
                        lemma_less_transitive(x, top_word(first.0), top_word(second.0));
                    }
                }
            }
            let next = lemma_lead(second, first, both);
            assert(map_add(next.1.0, next.0.0) =~= map_add(next.0.0, next.1.0));
            assert(map_add(next.1.1, next.0.1) =~= map_add(next.0.1, next.1.1));
            lemma_runs_add(next.1, next.0, next.2);
            assert(map_add(next.1.3, next.0.3) =~= map_add(next.0.3, next.1.3));
        }
    }
}

/// The reduction to the Lyndon basis is additive: where two sums and their
/// sum are reduced without a failure, the reduction of the sum is the sum
/// of the two reductions.
pub proof fn lemma_basis_additive(a: SumMap, b: SumMap, ra: SumMap, rb: SumMap, rs: SumMap)
    requires
        has_canonical(a),
        has_canonical(b),
        lyndon_basis_of(a, Ok::<SumMap, ArithmeticError>(ra)),
        lyndon_basis_of(b, Ok::<SumMap, ArithmeticError>(rb)),
        lyndon_basis_of(map_add(a, b), Ok::<SumMap, ArithmeticError>(rs)),
    ensures
        rs == map_add(ra, rb),
{
    let nothing = Map::<Seq<int>, int>::empty();
    let fa = choose|f: nat| basis_run(a, nothing, f) == Some(Ok::<SumMap, ArithmeticError>(ra));
    let fb = choose|f: nat| basis_run(b, nothing, f) == Some(Ok::<SumMap, ArithmeticError>(rb));
    let fs = choose|f: nat| basis_run(map_add(a, b), nothing, f) == Some(Ok::<SumMap, ArithmeticError>(rs));
    assert(map_add(nothing, nothing) =~= nothing);
    lemma_sum_canonical(a, b);
    lemma_runs_add((a, nothing, fa, ra), (b, nothing, fb, rb), (map_add(a, b), nothing, fs, rs));
}

/// A run of the reduction and the run on its state multiplied by a factor
/// that is not zero end with results of which the second is the first
/// multiplied by the factor.
proof fn lemma_runs_scale(
    plain: (SumMap, SumMap, nat, SumMap),
    scaled: (SumMap, SumMap, nat, SumMap),
    k: int,
)
    requires
        k != 0,
        has_canonical(plain.0),
        has_canonical(scaled.0),
        zero_free(plain.1),
        zero_free(scaled.1),
        scaled.0 == map_scale(plain.0, k),
        scaled.1 == map_scale(plain.1, k),
        basis_run(plain.0, plain.1, plain.2) == Some(Ok::<SumMap, ArithmeticError>(plain.3)),
        basis_run(scaled.0, scaled.1, scaled.2) == Some(Ok::<SumMap, ArithmeticError>(scaled.3)),
    ensures
        scaled.3 == map_scale(plain.3, k),
    decreases plain.2,
{
    let nothing = Map::<Seq<int>, int>::empty();
    let (p, d, f, r) = plain;
    let (pk, dk, fk, rk) = scaled;
    if p == nothing {
        assert(map_scale(nothing, k) =~= nothing);
    } else {
        lemma_top(p);
        let w = top_word(p);
        let c = p[w];
        assert(k * c != 0) by (nonlinear_arith)
            requires
                k != 0,
                c != 0,
        ;
        assert(pk.contains_key(w) && pk[w] == k * c);
        assert(pk != nothing);
        lemma_top(pk);
        let v = top_word(pk);
        assert(p.contains_key(v)) by {
            if !p.contains_key(v) {
                assert(k * 0 == 0);
            }
        }
        lemma_less_asymmetric(w, v);
        assert(v == w);
        let s = basis_step(p, d)->Ok_0;
        let sk = basis_step(pk, dk)->Ok_0;
        lemma_step(p, d, s);
        lemma_step(pk, dk, sk);
        assert forall|x: Word| coeff(sk.0, x) == k * coeff(s.0, x) by {
            let g = pending_shift(w, x);
            let a = coeff(p, x);
            assert(coeff(pk, x) == k * a);
            assert(k * a - (k * c) * g == k * (a - c * g)) by (nonlinear_arith);
        }
        assert forall|x: Word| coeff(sk.1, x) == k * coeff(s.1, x) by {
            let g = done_shift(w, x);
            let a = coeff(d, x);
            assert(coeff(dk, x) == k * a);
            assert(k * a + (k * c) * g == k * (a + c * g)) by (nonlinear_arith);
        }
        lemma_sorted_terms(sk.0);
        lemma_same_coeffs(sk.0, map_scale(s.0, k));
        lemma_same_coeffs(sk.1, map_scale(s.1, k));
        lemma_runs_scale((s.0, s.1, (f - 1) as nat, r), (sk.0, sk.1, (fk - 1) as nat, rk), k);
    }
}

/// The reduction to the Lyndon basis is homogeneous: where a sum and a
/// multiple of it are reduced without a failure, the reduction of the
/// multiple is the multiple of the reduction.
pub proof fn lemma_basis_scaled(a: SumMap, k: int, ra: SumMap, rk: SumMap)
    requires
        has_canonical(a),
        lyndon_basis_of(a, Ok::<SumMap, ArithmeticError>(ra)),
        lyndon_basis_of(map_scale(a, k), Ok::<SumMap, ArithmeticError>(rk)),
    ensures
        rk == map_scale(ra, k),
{
    let nothing = Map::<Seq<int>, int>::empty();
    let fa = choose|f: nat| basis_run(a, nothing, f) == Some(Ok::<SumMap, ArithmeticError>(ra));
    let fk = choose|f: nat| basis_run(map_scale(a, k), nothing, f) == Some(Ok::<SumMap, ArithmeticError>(rk));
    if k == 0 {
        assert(map_scale(a, 0) =~= nothing) by {
            assert forall|w: Word| !map_scale(a, 0).contains_key(w) by {
                assert(0 * coeff(a, w) == 0);
            }
        }
        assert(map_scale(ra, 0) =~= nothing) by {
            assert forall|w: Word| !map_scale(ra, 0).contains_key(w) by {
                assert(0 * coeff(ra, w) == 0);
            }
        }
    } else {
        assert(map_scale(nothing, k) =~= nothing);
        lemma_multiple_canonical(a, k);
        lemma_runs_scale((a, nothing, fa, ra), (map_scale(a, k), nothing, fk, rk), k);
    }
}

} // verus!
