//! Lyndon words: the factorization of a word into Lyndon words, and the
//! reduction of a formal sum to the Lyndon basis.

use vstd::prelude::*;
use crate::base::vector_like::{Atom, VectorLike};
use crate::base::word_order::{word_less, word_less_eq, agree_on, lemma_less_witness,
    lemma_less_by_position, lemma_less_asymmetric, lemma_prefix_less_eq, lemma_less_transitive,
    lemma_less_eq_transitive, lemma_order_total};
use crate::math::linear::{Coeff, LinearMonom};
use crate::math::shuffle::keys_of;
use crate::math::terms::{Word, fits};

verus! {

/// A Lyndon word: a nonempty word that is strictly smaller than each of its
/// proper suffixes.
pub open spec fn is_lyndon(w: Word) -> bool {
    w.len() > 0 && forall|i: int| 0 < i < w.len() ==> word_less(w, #[trigger] w.skip(i))
}

/// The words of a list written one after the other.
pub open spec fn concat_all(fs: Seq<Word>) -> Word
    decreases fs.len(),
{
    if fs.len() == 0 {
        Seq::empty()
    } else {
        fs[0] + concat_all(fs.skip(1))
    }
}

/// No word of the list is greater than the one before it.
pub open spec fn nonincreasing(fs: Seq<Word>) -> bool {
    forall|i: int| 0 <= i && i + 1 < fs.len() ==> word_less_eq(#[trigger] fs[i + 1], fs[i])
}

/// The factors that Duval's scan yields from the state `(start, k, m)`: the
/// word is factored up to `start`, and the letters at `k` and `m` are the
/// next to be compared.
pub open spec fn duval_from(w: Word, start: int, k: int, m: int) -> Seq<Word>
    decreases w.len() - start, w.len() - m,
{
    if !(0 <= start <= k && k < m && m <= w.len()) {
        if 0 <= start < w.len() && k >= w.len() {
            seq![w.subrange(start, w.len() as int)]
        } else {
            Seq::empty()
        }
    } else if m >= w.len() || w[m] < w[k] {
        let next = start + (m - k);
        seq![w.subrange(start, next)] + duval_from(
            w,
            next,
            next,
            if next < w.len() {
                next + 1
            } else {
                next
            },
        )
    } else if w[k] < w[m] {
        duval_from(w, start, start, m + 1)
    } else {
        duval_from(w, start, k + 1, m + 1)
    }
}

/// The factorization of a word into Lyndon words by Duval's algorithm.
pub open spec fn lyndon_factors(w: Word) -> Seq<Word> {
    duval_from(w, 0, 0, 1)
}

/// What holds during a scan: the scanned part `start..m` repeats with the
/// period `m - k`, and its first period is a Lyndon word.
pub open spec fn scan_ok(w: Word, start: int, k: int, m: int) -> bool {
    &&& 0 <= start <= k
    &&& k < m <= w.len()
    &&& forall|i: int| start + (m - k) <= i < m ==> w[i] == #[trigger] w[i - (m - k)]
    &&& is_lyndon(w.subrange(start, start + (m - k)))
}

/// What the factor before `start` leaves behind: the word goes on from
/// `start` with the period `p` of that factor for `t` letters, and then ends
/// or holds a smaller letter than the period asks for.
pub open spec fn follows(w: Word, p: int, start: int, t: int) -> bool {
    &&& 1 <= p <= start
    &&& 0 <= t
    &&& start + t <= w.len()
    &&& forall|i: int| start <= i < start + t ==> w[i] == #[trigger] w[i - p]
    &&& (start + t == w.len() || w[start + t] < w[start + t - p])
}

/// A scanned part whose next letter is greater than the period asks for is
/// a Lyndon word together with that letter: it is less than its suffix at `i`.
proof fn lemma_extend_suffix(w: Word, s: int, m: int, p: int, i: int)
    requires
        0 <= s,
        1 <= p,
        s + p <= m < w.len(),
        forall|j: int| s + p <= j < m ==> w[j] == #[trigger] w[j - p],
        is_lyndon(w.subrange(s, s + p)),
        w[m - p] < w[m],
        0 < i < m + 1 - s,
    ensures
        word_less(w.subrange(s, m + 1), w.subrange(s, m + 1).skip(i)),
    decreases i,
{
    let y = w.subrange(s, m + 1);
    let len = m + 1 - s;
    let z = y.skip(i);
    if i >= p {
        // Against the suffix one period earlier, this one differs at its last letter.
        let x = y.skip(i - p);
        let d = len - 1 - i;
        assert(agree_on(x, z, 0, d)) by {
            assert forall|j: int| 0 <= j < d implies x[j] == z[j] by {
                assert(z[j] == w[s + i + j]);
                assert(x[j] == w[s + i + j - p]);
            }
        }
        assert(x[d] == w[m - p]);
        assert(z[d] == w[m]);
        lemma_less_by_position(x, z, d);
        if i > p {
            lemma_extend_suffix(w, s, m, p, i - p);
            lemma_less_transitive(y, x, z);
        } else {
            assert(x =~= y);
        }
    } else {
        let wl = w.subrange(s, s + p);
        assert(word_less(wl, wl.skip(i)));
        let d = lemma_less_witness(wl, wl.skip(i));
        assert(d < p - i);
        assert(agree_on(y, z, 0, d)) by {
            assert forall|j: int| 0 <= j < d implies y[j] == z[j] by {
                assert(wl[j] == wl.skip(i)[j]);
                assert(y[j] == wl[j]);
                assert(z[j] == wl.skip(i)[j]);
            }
        }
        assert(y[d] == wl[d]);
        assert(z[d] == wl.skip(i)[d]);
        lemma_less_by_position(y, z, d);
    }
}

/// A scanned part whose next letter is greater than the period asks for is
/// a Lyndon word together with that letter.
proof fn lemma_extend_lyndon(w: Word, s: int, k: int, m: int)
    requires
        scan_ok(w, s, k, m),
        m < w.len(),
        w[k] < w[m],
    ensures
        scan_ok(w, s, s, m + 1),
{
    let p = m - k;
    assert(w[m - p] == w[k]);
    let y = w.subrange(s, m + 1);
    assert forall|i: int| 0 < i < y.len() implies word_less(y, #[trigger] y.skip(i)) by {
        lemma_extend_suffix(w, s, m, p, i);
    }
    assert(s + (m + 1 - s) == m + 1);
}

/// A Lyndon word that begins where the previous factor left off is not
/// greater than that factor.
proof fn lemma_next_factor_bounded(w: Word, p: int, s: int, t: int, q: int)
    requires
        follows(w, p, s, t),
        1 <= q,
        s + q <= w.len(),
        is_lyndon(w.subrange(s, s + q)),
    ensures
        word_less_eq(w.subrange(s, s + q), w.subrange(s - p, s)),
{
    let f = w.subrange(s, s + q);
    let prev = w.subrange(s - p, s);
    if q <= t {
        if q <= p {
            assert(agree_on(f, prev, 0, q)) by {
                assert forall|j: int| 0 <= j < q implies f[j] == prev[j] by {
                    assert(w[s + j] == w[s + j - p]);
                }
            }
            lemma_prefix_less_eq(f, prev);
        } else {
            // The suffix one period in is a beginning of the word: no Lyndon word.
            let g = f.skip(p);
            assert(agree_on(g, f, 0, q - p)) by {
                assert forall|j: int| 0 <= j < q - p implies g[j] == f[j] by {
                    assert(w[s + p + j] == w[s + p + j - p]);
                }
            }
            lemma_prefix_less_eq(g, f);
            assert(word_less(f, g));
            lemma_less_asymmetric(f, g);
        }
    } else {
        assert(w[s + t] < w[s + t - p]);
        if t < p {
            assert(agree_on(f, prev, 0, t)) by {
                assert forall|j: int| 0 <= j < t implies f[j] == prev[j] by {
                    assert(w[s + j] == w[s + j - p]);
                }
            }
            assert(f[t] == w[s + t]);
            assert(prev[t] == w[s + t - p]);
            lemma_less_by_position(f, prev, t);
        } else {
            let g = f.skip(p);
            let d = t - p;
            assert(agree_on(g, f, 0, d)) by {
                assert forall|j: int| 0 <= j < d implies g[j] == f[j] by {
                    assert(w[s + p + j] == w[s + p + j - p]);
                }
            }
            assert(g[d] == w[s + t]);
            assert(f[d] == w[s + t - p]);
            lemma_less_by_position(g, f, d);
            assert(word_less(f, g));
            lemma_less_asymmetric(f, g);
        }
    }
}

/// A word of one letter is a Lyndon word.
pub proof fn lemma_letter_is_lyndon(w: Word)
    requires
        w.len() == 1,
    ensures
        is_lyndon(w),
{
}

/// What Duval's scan yields from a state reached in a scan: Lyndon words, none
/// greater than the one before it, that make up the rest of the word; and the
/// first of them is not greater than the factor before `start`, if there is one.
proof fn lemma_duval(w: Word, start: int, k: int, m: int, has_prev: bool, p0: int, t0: int)
    requires
        start == w.len() && k == start || scan_ok(w, start, k, m),
        0 <= start <= w.len(),
        has_prev ==> follows(w, p0, start, t0),
    ensures
        concat_all(duval_from(w, start, k, m)) == w.subrange(start, w.len() as int),
        forall|i: int| 0 <= i < duval_from(w, start, k, m).len() ==> is_lyndon(#[trigger] duval_from(w, start, k, m)[i]),
        nonincreasing(duval_from(w, start, k, m)),
        has_prev && duval_from(w, start, k, m).len() > 0 ==> word_less_eq(
            duval_from(w, start, k, m)[0],
            w.subrange(start - p0, start),
        ),
        start < w.len() ==> duval_from(w, start, k, m).len() > 0,
    decreases w.len() - start, w.len() - m,
{
    let n = w.len() as int;
    let fs = duval_from(w, start, k, m);
    if start == n && k == start {
        assert(fs =~= Seq::<Word>::empty());
        assert(w.subrange(start, n) =~= Seq::<int>::empty());
    } else if m >= n || w[m] < w[k] {
        let p = m - k;
        let next = start + p;
        let f = w.subrange(start, next);
        let m2 = if next < n { next + 1 } else { next };
        let rest = duval_from(w, next, next, m2);
        assert(fs == seq![f] + rest);
        assert(follows(w, p, next, m - next)) by {
            assert forall|i: int| next <= i < next + (m - next) implies w[i] == #[trigger] w[i - p] by {}
        }
        if next < n {
            assert(scan_ok(w, next, next, m2)) by {
                lemma_letter_is_lyndon(w.subrange(next, next + 1));
            }
        }
        lemma_duval(w, next, next, m2, true, p, m - next);
        assert(fs[0] == f);
        assert(fs.skip(1) =~= rest);
        assert(f + w.subrange(next, n) =~= w.subrange(start, n));
        assert forall|i: int| 0 <= i < fs.len() implies is_lyndon(#[trigger] fs[i]) by {
            if i > 0 {
                assert(fs[i] == rest[i - 1]);
            }
        }
        assert(nonincreasing(fs)) by {
            assert forall|i: int| 0 <= i && i + 1 < fs.len() implies word_less_eq(#[trigger] fs[i + 1], fs[i]) by {
                if i == 0 {
                    assert(fs[1] == rest[0]);
                    assert(w.subrange(next - p, next) == f);
                } else {
                    assert(fs[i + 1] == rest[i - 1 + 1]);
                    assert(fs[i] == rest[i - 1]);
                }
            }
        }
        if has_prev {
            lemma_next_factor_bounded(w, p0, start, t0, p);
        }
    } else if w[k] < w[m] {
        lemma_extend_lyndon(w, start, k, m);
        lemma_duval(w, start, start, m + 1, has_prev, p0, t0);
    } else {
        assert(scan_ok(w, start, k + 1, m + 1)) by {
            let p = m - k;
            assert forall|i: int| start + p <= i < m + 1 implies w[i] == #[trigger] w[i - p] by {
                if i == m {
                    assert(w[m - p] == w[k]);
                }
            }
        }
        lemma_duval(w, start, k + 1, m + 1, has_prev, p0, t0);
    }
}

/// The factors of a word are Lyndon words, none of them is greater than the
/// one before it, and written one after the other they give the word.
pub proof fn lemma_lyndon_factors(w: Word)
    ensures
        concat_all(lyndon_factors(w)) == w,
        forall|i: int| 0 <= i < lyndon_factors(w).len() ==> is_lyndon(#[trigger] lyndon_factors(w)[i]),
        nonincreasing(lyndon_factors(w)),
        w.len() > 0 ==> lyndon_factors(w).len() > 0,
{
    if w.len() > 0 {
        assert(scan_ok(w, 0, 0, 1)) by {
            lemma_letter_is_lyndon(w.subrange(0, 1));
        }
        lemma_duval(w, 0, 0, 1, false, 0, 0);
    } else {
        lemma_duval(w, 0, 0, 1, false, 0, 0);
    }
    assert(w.subrange(0, w.len() as int) =~= w);
}

/// The words of a list written one after the other end with the last word.
pub proof fn lemma_concat_last(fs: Seq<Word>)
    requires
        fs.len() > 0,
    ensures
        concat_all(fs) == concat_all(fs.drop_last()) + fs.last(),
    decreases fs.len(),
{
    if fs.len() == 1 {
        assert(fs.skip(1) =~= Seq::<Word>::empty());
        assert(fs.drop_last() =~= Seq::<Word>::empty());
        assert(concat_all(fs) =~= concat_all(fs.drop_last()) + fs.last());
    } else {
        lemma_concat_last(fs.skip(1));
        assert(fs.skip(1).drop_last() =~= fs.drop_last().skip(1));
        assert(fs.drop_last()[0] == fs[0]);
        assert(concat_all(fs) =~= concat_all(fs.drop_last()) + fs.last());
    }
}

/// In a list in which no word is greater than the one before it, no word is
/// greater than the first.
pub proof fn lemma_nonincreasing_first(fs: Seq<Word>, j: int)
    requires
        nonincreasing(fs),
        0 <= j < fs.len(),
    ensures
        word_less_eq(fs[j], fs[0]),
    decreases j,
{
    if j == 0 {
        lemma_order_total(fs[0], fs[0]);
    } else {
        lemma_nonincreasing_first(fs, j - 1);
        assert(word_less_eq(fs[j - 1 + 1], fs[j - 1]));
        lemma_less_eq_transitive(fs[j], fs[j - 1], fs[0]);
    }
}

/// The length of the words of a list written one after the other is at
/// least that of any one of them.
pub proof fn lemma_concat_len(fs: Seq<Word>, j: int)
    requires
        0 <= j < fs.len(),
    ensures
        concat_all(fs).len() >= fs[j].len(),
        fs.len() >= 2 && (forall|i: int| 0 <= i < fs.len() ==> (#[trigger] fs[i]).len() > 0)
            ==> concat_all(fs).len() > fs[j].len(),
    decreases fs.len(),
{
    if j == 0 {
        if fs.len() >= 2 {
            assert(fs.skip(1)[0] == fs[1]);
            lemma_concat_len(fs.skip(1), 0);
        }
    } else {
        assert(fs.skip(1)[j - 1] == fs[j]);
        lemma_concat_len(fs.skip(1), j - 1);
    }
}

/// A word is a Lyndon word exactly when it is its own factorization.
pub proof fn lemma_lyndon_single(w: Word)
    ensures
        is_lyndon(w) <==> lyndon_factors(w) == seq![w],
        is_lyndon(w) <==> lyndon_factors(w).len() == 1,
{
    let fs = lyndon_factors(w);
    lemma_lyndon_factors(w);
    if fs.len() == 1 {
        assert(fs.skip(1) =~= Seq::<Word>::empty());
        assert(concat_all(fs.skip(1)) =~= Seq::<int>::empty());
        assert(fs[0] + Seq::<int>::empty() =~= fs[0]);
        assert(fs[0] == w);
        assert(fs =~= seq![w]);
    }
    if is_lyndon(w) && fs.len() != 1 {
        // The first factor begins the word and the last one ends it.
        let first = fs[0];
        let last = fs.last();
        assert forall|i: int| 0 <= i < fs.len() implies (#[trigger] fs[i]).len() > 0 by {
            assert(is_lyndon(fs[i]));
        }
        lemma_concat_len(fs, 0);
        lemma_concat_len(fs, fs.len() - 1);
        lemma_concat_last(fs);
        assert(agree_on(first, w, 0, first.len() as int));
        lemma_prefix_less_eq(first, w);
        let i = w.len() - last.len();
        assert(w.skip(i) =~= last);
        assert(word_less(w, w.skip(i)));
        lemma_nonincreasing_first(fs, fs.len() - 1);
        lemma_less_eq_transitive(w, last, first);
        lemma_less_asymmetric(w, first);
    }
}

/// The words of a list written one after the other are the first `i` of
/// them written one after the other, and then the others.
pub proof fn lemma_concat_split(fs: Seq<Word>, i: int)
    requires
        0 <= i <= fs.len(),
    ensures
        concat_all(fs) == concat_all(fs.take(i)) + concat_all(fs.skip(i)),
    decreases i,
{
    if i == 0 {
        assert(fs.take(0) =~= Seq::<Word>::empty());
        assert(fs.skip(0) =~= fs);
        assert(concat_all(fs) =~= concat_all(fs.take(i)) + concat_all(fs.skip(i)));
    } else {
        lemma_concat_split(fs.skip(1), i - 1);
        assert(fs.skip(1).take(i - 1) =~= fs.take(i).skip(1));
        assert(fs.skip(1).skip(i - 1) =~= fs.skip(i));
        assert(fs.take(i)[0] == fs[0]);
        assert(concat_all(fs) =~= concat_all(fs.take(i)) + concat_all(fs.skip(i)));
    }
}

/// A position within the words written one after the other lies in one of
/// the words: after the beginning of the word at `i`, and not after its end.
proof fn lemma_locate(gs: Seq<Word>, at: int) -> (i: int)
    requires
        0 < at <= concat_all(gs).len(),
        forall|j: int| 0 <= j < gs.len() ==> (#[trigger] gs[j]).len() > 0,
    ensures
        0 <= i < gs.len(),
        concat_all(gs.take(i)).len() < at <= concat_all(gs.take(i + 1)).len(),
    decreases gs.len(),
{
    if gs.len() == 0 {
        assert(false);
        0
    } else {
        let last = gs.len() - 1;
        lemma_concat_split(gs, last);
        lemma_concat_last(gs);
        assert(gs.take(last) =~= gs.drop_last());
        assert(gs.take(last + 1) =~= gs);
        if concat_all(gs.take(last)).len() < at {
            last
        } else {
            let head = gs.drop_last();
            let i = lemma_locate(head, at);
            assert(head.take(i) =~= gs.take(i));
            assert(head.take(i + 1) =~= gs.take(i + 1));
            i
        }
    }
}

/// Of two lists of Lyndon words, neither with a word greater than the one
/// before it, that make up the same word, the first words have the same length.
proof fn lemma_first_factor_not_longer(fs: Seq<Word>, gs: Seq<Word>)
    requires
        fs.len() > 0,
        gs.len() > 0,
        forall|j: int| 0 <= j < fs.len() ==> is_lyndon(#[trigger] fs[j]),
        forall|j: int| 0 <= j < gs.len() ==> is_lyndon(#[trigger] gs[j]),
        nonincreasing(gs),
        concat_all(fs) == concat_all(gs),
    ensures
        fs[0].len() <= gs[0].len(),
{
    let f = fs[0];
    let g = gs[0];
    let w = concat_all(gs);
    if f.len() > g.len() {
        assert(is_lyndon(fs[0]) && is_lyndon(gs[0]));
        assert forall|j: int| 0 <= j < gs.len() implies (#[trigger] gs[j]).len() > 0 by {
            assert(is_lyndon(gs[j]));
        }
        lemma_concat_len(fs, 0);
        let i = lemma_locate(gs, f.len() as int);
        let start = concat_all(gs.take(i)).len() as int;
        // The first word of the one list begins with the first word of the other.
        assert(w == f + concat_all(fs.skip(1)));
        assert(w == g + concat_all(gs.skip(1)));
        assert(agree_on(g, f, 0, g.len() as int)) by {
            assert forall|x: int| 0 <= x < g.len() implies g[x] == f[x] by {
                assert(w[x] == g[x]);
                assert(w[x] == f[x]);
            }
        }
        lemma_prefix_less_eq(g, f);
        assert(i >= 1) by {
            if i == 0 {
                assert(gs.take(1) =~= seq![g]);
                assert(seq![g].skip(1) =~= Seq::<Word>::empty());
                assert(concat_all(Seq::<Word>::empty()) =~= Seq::<int>::empty());
                assert(seq![g][0] == g);
                assert(concat_all(seq![g]) =~= g + Seq::<int>::empty());
                assert(concat_all(seq![g]) =~= g);
            }
        }
        // What is left of it after the words that lie within it begins the next word.
        let h = f.skip(start);
        lemma_concat_split(gs, i);
        lemma_concat_split(gs, i + 1);
        lemma_concat_last(gs.take(i + 1));
        assert(gs.take(i + 1).drop_last() =~= gs.take(i));
        assert(gs.take(i + 1).last() == gs[i]);
        assert(start >= g.len()) by {
            lemma_concat_len(gs.take(i), 0);
            assert(gs.take(i)[0] == g);
        }
        assert(agree_on(h, gs[i], 0, h.len() as int)) by {
            assert forall|x: int| 0 <= x < h.len() implies h[x] == gs[i][x] by {
                assert(h[x] == f[start + x]);
                assert(w[start + x] == f[start + x]);
                let upto = concat_all(gs.take(i + 1));
                assert(w == upto + concat_all(gs.skip(i + 1)));
                assert(upto == concat_all(gs.take(i)) + gs[i]);
                assert(w[start + x] == upto[start + x]);
                assert(upto[start + x] == gs[i][x]);
            }
        }
        lemma_prefix_less_eq(h, gs[i]);
        assert(word_less(f, h));
        lemma_nonincreasing_first(gs, i);
        lemma_less_eq_transitive(f, h, gs[i]);
        lemma_less_eq_transitive(f, gs[i], g);
        lemma_less_asymmetric(f, g);
    }
}

/// There is one way only to write a word as Lyndon words, none greater than
/// the one before it.
pub proof fn lemma_factorization_unique(fs: Seq<Word>, gs: Seq<Word>)
    requires
        forall|j: int| 0 <= j < fs.len() ==> is_lyndon(#[trigger] fs[j]),
        forall|j: int| 0 <= j < gs.len() ==> is_lyndon(#[trigger] gs[j]),
        nonincreasing(fs),
        nonincreasing(gs),
        concat_all(fs) == concat_all(gs),
    ensures
        fs == gs,
    decreases fs.len(),
{
    if fs.len() == 0 || gs.len() == 0 {
        if fs.len() > 0 {
            assert(is_lyndon(fs[0]));
            lemma_concat_len(fs, 0);
        }
        if gs.len() > 0 {
            assert(is_lyndon(gs[0]));
            lemma_concat_len(gs, 0);
        }
        assert(fs =~= gs);
    } else {
        lemma_first_factor_not_longer(fs, gs);
        lemma_first_factor_not_longer(gs, fs);
        let w = concat_all(fs);
        let f = fs[0];
        let g = gs[0];
        assert(w == f + concat_all(fs.skip(1)));
        assert(w == g + concat_all(gs.skip(1)));
        assert(f =~= g) by {
            assert forall|x: int| 0 <= x < f.len() implies f[x] == g[x] by {
                assert(w[x] == f[x]);
                assert(w[x] == g[x]);
            }
        }
        let rf = fs.skip(1);
        let rg = gs.skip(1);
        assert(concat_all(rf) =~= concat_all(rg)) by {
            assert(concat_all(rf) =~= w.skip(f.len() as int));
            assert(concat_all(rg) =~= w.skip(g.len() as int));
        }
        assert(nonincreasing(rf)) by {
            assert forall|i: int| 0 <= i && i + 1 < rf.len() implies word_less_eq(#[trigger] rf[i + 1], rf[i]) by {
                assert(word_less_eq(fs[(i + 1) + 1], fs[i + 1]));
            }
        }
        assert(nonincreasing(rg)) by {
            assert forall|i: int| 0 <= i && i + 1 < rg.len() implies word_less_eq(#[trigger] rg[i + 1], rg[i]) by {
                assert(word_less_eq(gs[(i + 1) + 1], gs[i + 1]));
            }
        }
        assert forall|j: int| 0 <= j < rf.len() implies is_lyndon(#[trigger] rf[j]) by {
            assert(rf[j] == fs[j + 1]);
        }
        assert forall|j: int| 0 <= j < rg.len() implies is_lyndon(#[trigger] rg[j]) by {
            assert(rg[j] == gs[j + 1]);
        }
        lemma_factorization_unique(rf, rg);
        assert(fs =~= seq![f] + rf);
        assert(gs =~= seq![g] + rg);
    }
}

/// The factorization of a word is the one way to write it as Lyndon words,
/// none greater than the one before it.
pub proof fn lemma_lyndon_factors_unique(w: Word, fs: Seq<Word>)
    requires
        forall|j: int| 0 <= j < fs.len() ==> is_lyndon(#[trigger] fs[j]),
        nonincreasing(fs),
        concat_all(fs) == w,
    ensures
        fs == lyndon_factors(w),
{
    lemma_lyndon_factors(w);
    lemma_factorization_unique(fs, lyndon_factors(w));
}

/// The product of the whole numbers from 1 to `n`; 1 where `n` is less than 2.
pub open spec fn factorial_of(n: int) -> int
    decreases n,
{
    if n < 2 {
        1
    } else {
        n * factorial_of(n - 1)
    }
}

/// The factorial grows with its argument and is at least 1.
pub proof fn lemma_factorial_monotone(i: int, n: int)
    requires
        i <= n,
    ensures
        1 <= factorial_of(i) <= factorial_of(n),
    decreases n,
{
    if n < 2 {
    } else if i < n {
        lemma_factorial_monotone(i, n - 1);
        assert(factorial_of(n - 1) <= n * factorial_of(n - 1)) by (nonlinear_arith)
            requires
                n >= 2,
                factorial_of(n - 1) >= 1,
        ;
    } else {
        lemma_factorial_monotone(n - 1, n - 1);
        assert(1 <= n * factorial_of(n - 1)) by (nonlinear_arith)
            requires
                n >= 2,
                factorial_of(n - 1) >= 1,
        ;
    }
}

/// The factorial of `x`, if it is in the range of the coefficient type.
pub fn factorial(x: Coeff) -> (r: Option<Coeff>)
    ensures
        r == if fits(factorial_of(x as int)) {
            Some(factorial_of(x as int) as i32)
        } else {
            None::<Coeff>
        },
{
    if x < 2 {
        return Some(1);
    }
    let mut ret: Coeff = 1;
    let mut i: Coeff = 2;
    while i <= x
        invariant
            2 <= i <= x + 1,
            ret == factorial_of(i - 1),
        decreases x + 1 - i,
    {
        proof {
            lemma_factorial_monotone(i as int, x as int);
        }
        match ret.checked_mul(i) {
            None => {
                assert(ret * i == i * factorial_of(i - 1)) by (nonlinear_arith)
                    requires
                        ret == factorial_of(i - 1),
                ;
                return None;
            },
            Some(n) => {
                assert(ret * i == i * factorial_of(i - 1)) by (nonlinear_arith)
                    requires
                        ret == factorial_of(i - 1),
                ;
                ret = n;
            },
        }
        if i == i32::MAX {
            return Some(ret);
        }
        i += 1;
    }
    Some(ret)
}

/// The part `from..to` of a vector of atoms.
fn slice_of<T: Atom, C: LinearMonom + VectorLike<T>>(word: &C, from: usize, to: usize) -> (r: C)
    requires
        from <= to <= word.key().len(),
    ensures
        r.key() == word.key().subrange(from as int, to as int),
{
    let mut r = C::new();
    let mut i: usize = from;
    while i < to
        invariant
            from <= i <= to <= word.key().len(),
            r.key() == word.key().subrange(from as int, i as int),
        decreases to - i,
    {
        let x = word.at(i);
        r.push(x);
        assert(word.key().subrange(from as int, i as int).push(word.key()[i as int]) =~= word.key().subrange(
            from as int,
            i + 1,
        ));
        i += 1;
    }
    r
}

/// Splits a word into Lyndon words, none greater than the one before it,
/// by Duval's algorithm. There is exactly one such factorization.
pub fn lyndon_factorize<T: Atom, C: LinearMonom + VectorLike<T>>(word: &C) -> (r: Vec<C>)
    ensures
        keys_of(r@) == lyndon_factors(word.key()),
{
    let ghost w = word.key();
    let n = word.len();
    let mut start: usize = 0;
    let mut k: usize = start;
    let mut m: usize = start + 1;
    let mut ret = Vec::<C>::new();
    assert(keys_of(ret@) =~= Seq::<Word>::empty());
    while k < n
        invariant
            n == w.len(),
            w == word.key(),
            start <= n,
            start <= k,
            k < n ==> k < m <= n,
            keys_of(ret@) + duval_from(w, start as int, k as int, m as int) == lyndon_factors(w),
        decreases n - start, n - m,
    {
        let closes = if m >= n {
            true
        } else {
            word.at(m).precedes(word.at(k))
        };
        if closes {
            let l = m - k;
            let factor = slice_of(word, start, start + l);
            let ghost before = keys_of(ret@);
            ret.push(factor);
            proof {
                let next = start + l;
                assert(keys_of(ret@) =~= before.push(w.subrange(start as int, next)));
                let rest = duval_from(w, next, next, if next < n { next + 1 } else { next });
                assert(before.push(w.subrange(start as int, next)) + rest =~= before + (seq![
                    w.subrange(start as int, next),
                ] + rest));
            }
            start += l;
            k = start;
            m = if start < n {
                start + 1
            } else {
                start
            };
        } else if word.at(k).precedes(word.at(m)) {
            k = start;
            m += 1;
        } else {
            k += 1;
            m += 1;
        }
    }
    if start < n {
        let factor = slice_of(word, start, n);
        let ghost before = keys_of(ret@);
        ret.push(factor);
        proof {
            assert(keys_of(ret@) =~= before.push(w.subrange(start as int, n as int)));
        }
    } else {
        assert(duval_from(w, start as int, k as int, m as int) =~= Seq::<Word>::empty());
    }
    assert(keys_of(ret@) + Seq::<Word>::empty() =~= keys_of(ret@));
    ret
}

} // verus!
