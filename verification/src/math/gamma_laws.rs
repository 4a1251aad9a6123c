//! Laws of the exchange between sums of Deltas and sums of Gammas: a Delta
//! of two different points comes back from its Gamma, and so does a sum of
//! products of such Deltas.

use vstd::prelude::*;
use crate::base::vector_like::Atom;
use crate::math::delta::Delta;
use crate::math::gamma::{all_pairs, delta_key_of, delta_of_gamma, delta_points, gamma_key_of,
    gamma_of_delta, gamma_sum_is_pairs, is_pair, lemma_mask_set, point_list, point_mask, rekeyed};
use crate::math::linear::lemma_collect_push;
use crate::math::terms::{SumMap, TermSeq, Word, accumulate, canonical, coeff, coeff_in, collect,
    fits, lemma_canonical_distinct, lemma_coeff_in_distinct, lemma_collect_canonical,
    lemma_collect_coeff, lemma_collect_same};
use crate::math::x::X;

verus! {

/// The letter is the code of a Delta of two different points from 1 to 16.
pub open spec fn is_proper_delta(c: int) -> bool {
    0 <= c <= 0xffff && 1 <= delta_points(c).0 < delta_points(c).1 <= 16
}

/// Every letter of the word is the code of a Delta of two different points
/// from 1 to 16.
pub open spec fn proper_delta_key(k: Word) -> bool {
    forall|i: int| 0 <= i < k.len() ==> is_proper_delta(#[trigger] k[i])
}

/// The points up to `upto` that the bits of two points hold.
proof fn lemma_pair_points(a: int, b: int, upto: int)
    requires
        1 <= a < b <= 16,
        0 <= upto <= 16,
    ensures
        point_list(point_mask(a) | point_mask(b), upto) == (if upto < a {
            Seq::<i32>::empty()
        } else if upto < b {
            seq![a as i32]
        } else {
            seq![a as i32, b as i32]
        }),
    decreases upto,
{
    if upto > 0 {
        lemma_pair_points(a, b, upto - 1);
        lemma_mask_set(point_mask(a), (b - 1) as u16, (upto - 1) as u16);
        lemma_mask_set(0, (a - 1) as u16, (upto - 1) as u16);
        let bits = point_mask(a) | point_mask(b);
        assert((bits & point_mask(upto) != 0) == (upto == a || upto == b));
        if upto == a {
            assert(point_list(bits, upto) =~= seq![a as i32]);
        } else if upto == b {
            assert(point_list(bits, upto) =~= seq![a as i32, b as i32]);
        }
    }
}

/// A Delta of two different points from 1 to 16 becomes a Gamma of two
/// points, and that Gamma becomes the same Delta again.
pub proof fn lemma_delta_round_trip(c: int)
    requires
        is_proper_delta(c),
    ensures
        is_pair(gamma_of_delta(c)),
        delta_of_gamma(gamma_of_delta(c)) == c,
{
    let a = delta_points(c).0;
    let b = delta_points(c).1;
    let bits = point_mask(a) | point_mask(b);
    lemma_pair_points(a, b, 16);
    assert(gamma_of_delta(c) == bits as int);
    assert((bits as int) as u16 == bits);
    let d = Delta::of(X::Variable(a as i32), X::Variable(b as i32));
    Delta::lemma_of(X::Variable(a as i32), X::Variable(b as i32));
    d.lemma_code();
}

/// A product of Deltas of two different points from 1 to 16 becomes a
/// product of Gammas of two points, and that product becomes the same
/// product of Deltas again.
pub proof fn lemma_key_round_trip(k: Word)
    requires
        proper_delta_key(k),
    ensures
        all_pairs(gamma_key_of(k)),
        delta_key_of(gamma_key_of(k)) == k,
{
    assert forall|i: int| 0 <= i < k.len() implies is_pair(#[trigger] gamma_key_of(k)[i])
        && delta_key_of(gamma_key_of(k))[i] == k[i] by {
        assert(is_proper_delta(k[i]));
        lemma_delta_round_trip(k[i]);
    }
    assert(delta_key_of(gamma_key_of(k)) =~= k);
}

/// A list of terms with different keys and coefficients in range adds up,
/// without a failure, to the sum of the list.
pub proof fn lemma_accumulate_distinct(t: TermSeq)
    requires
        forall|i: int, j: int| 0 <= i < j < t.len() ==> (#[trigger] t[i]).0 != (#[trigger] t[j]).0,
        forall|i: int| 0 <= i < t.len() ==> fits((#[trigger] t[i]).1),
    ensures
        accumulate(Map::empty(), t) == Some(collect(t)),
    decreases t.len(),
{
    if t.len() == 0 {
        assert(collect(t) =~= Map::<Seq<int>, int>::empty());
    } else {
        let d = t.drop_last();
        let x = t.last();
        assert forall|i: int, j: int| 0 <= i < j < d.len() implies (#[trigger] d[i]).0 != (#[trigger] d[j]).0 by {
            assert(d[i] == t[i] && d[j] == t[j]);
        }
        assert forall|i: int| 0 <= i < d.len() implies fits((#[trigger] d[i]).1) by {
            assert(d[i] == t[i]);
        }
        lemma_accumulate_distinct(d);
        assert forall|i: int| 0 <= i < d.len() implies (#[trigger] d[i]).0 != x.0 by {
            assert(d[i] == t[i]);
            assert(t[i].0 != t[t.len() - 1].0);
        }
        lemma_coeff_in_distinct(d, x.0);
        lemma_collect_coeff(d);
        assert(coeff(collect(d), x.0) == 0);
        lemma_collect_push(d, x.0, x.1);
        assert(d.push((x.0, x.1)) =~= t);
    }
}

/// The terms of a sum of products of proper Deltas, exchanged for Gammas,
/// have different keys.
proof fn lemma_gamma_keys_differ(t: TermSeq)
    requires
        canonical(t),
        forall|i: int| 0 <= i < t.len() ==> proper_delta_key((#[trigger] t[i]).0),
    ensures
        forall|i: int, j: int| 0 <= i < t.len() && 0 <= j < t.len() && i != j ==> gamma_key_of(
            (#[trigger] t[i]).0,
        ) != gamma_key_of((#[trigger] t[j]).0),
{
    lemma_canonical_distinct(t);
    assert forall|i: int, j: int| 0 <= i < t.len() && 0 <= j < t.len() && i != j implies gamma_key_of(
        (#[trigger] t[i]).0,
    ) != gamma_key_of((#[trigger] t[j]).0) by {
        lemma_key_round_trip(t[i].0);
        lemma_key_round_trip(t[j].0);
        if i < j {
            assert(t[i].0 != t[j].0);
        } else {
            assert(t[j].0 != t[i].0);
        }
    }
}

/// A sum of products of Deltas of two different points from 1 to 16 is
/// exchanged for a sum of Gammas without a failure.
pub proof fn lemma_to_gamma_succeeds(t: TermSeq)
    requires
        canonical(t),
        forall|i: int| 0 <= i < t.len() ==> fits((#[trigger] t[i]).1) && proper_delta_key(t[i].0),
    ensures
        accumulate(Map::empty(), rekeyed(t, |k: Word| gamma_key_of(k))) == Some(
            collect(rekeyed(t, |k: Word| gamma_key_of(k))),
        ),
{
    let s = rekeyed(t, |k: Word| gamma_key_of(k));
    lemma_gamma_keys_differ(t);
    assert forall|i: int, j: int| 0 <= i < j < s.len() implies (#[trigger] s[i]).0 != (#[trigger] s[j]).0 by {
        assert(s[i].0 == gamma_key_of(t[i].0) && s[j].0 == gamma_key_of(t[j].0));
    }
    assert forall|i: int| 0 <= i < s.len() implies fits((#[trigger] s[i]).1) by {
        assert(s[i].1 == t[i].1);
    }
    lemma_accumulate_distinct(s);
}

/// The round trip of a sum: where the canonical list `t` of a sum of
/// products of Deltas of two different points from 1 to 16 is exchanged for
/// a sum of Gammas with the canonical list `g`, every Gamma of `g` has two
/// points, and `g` exchanged for Deltas is the sum of `t` again.
pub proof fn lemma_sum_round_trip(t: TermSeq, g: TermSeq)
    requires
        canonical(t),
        forall|i: int| 0 <= i < t.len() ==> fits((#[trigger] t[i]).1) && proper_delta_key(t[i].0),
        canonical(g),
        accumulate(Map::empty(), rekeyed(t, |k: Word| gamma_key_of(k))) == Some(collect(g)),
    ensures
        gamma_sum_is_pairs(collect(g)),
        accumulate(Map::empty(), rekeyed(g, |k: Word| delta_key_of(k))) == Some(collect(t)),
{
    let s = rekeyed(t, |k: Word| gamma_key_of(k));
    let u = rekeyed(g, |k: Word| delta_key_of(k));
    let big = collect(g);
    lemma_to_gamma_succeeds(t);
    assert(collect(s) == big);
    lemma_gamma_keys_differ(t);
    lemma_canonical_distinct(t);
    lemma_canonical_distinct(g);
    lemma_collect_canonical(t);
    lemma_collect_canonical(g);
    lemma_collect_coeff(s);
    assert forall|i: int, j: int| 0 <= i < j < s.len() implies (#[trigger] s[i]).0 != (#[trigger] s[j]).0 by {
        assert(s[i].0 == gamma_key_of(t[i].0) && s[j].0 == gamma_key_of(t[j].0));
    }
    // Each term of `g` is the exchanged form of one term of `t`.
    assert forall|i: int| 0 <= i < g.len() implies exists|j: int|
        0 <= j < t.len() && (#[trigger] g[i]).0 == gamma_key_of(t[j].0) && g[i].1 == t[j].1 by {
        let w = g[i].0;
        assert(big.contains_key(w) && big[w] == g[i].1);
        lemma_coeff_in_distinct(s, w);
        assert(coeff(collect(s), w) == coeff_in(s, w));
        assert(coeff_in(s, w) != 0);
        let j = choose|j: int| 0 <= j < s.len() && (#[trigger] s[j]).0 == w;
        assert(s[j] == (gamma_key_of(t[j].0), t[j].1));
    }
    assert forall|w: Word| #[trigger] big.contains_key(w) implies all_pairs(w) by {
        let i = choose|i: int| 0 <= i < g.len() && (#[trigger] g[i]).0 == w;
        let j = choose|j: int| 0 <= j < t.len() && g[i].0 == gamma_key_of(t[j].0) && g[i].1 == t[j].1;
        lemma_key_round_trip(t[j].0);
    }
    // Each term of `u` is a term of `t`.
    assert forall|i: int| 0 <= i < u.len() implies exists|j: int|
        0 <= j < t.len() && (#[trigger] u[i]) == t[j] && g[i].0 == gamma_key_of(t[j].0) by {
        let j = choose|j: int| 0 <= j < t.len() && g[i].0 == gamma_key_of(t[j].0) && g[i].1 == t[j].1;
        lemma_key_round_trip(t[j].0);
        assert(u[i] == (delta_key_of(g[i].0), g[i].1));
    }
    assert forall|a: int, b: int| 0 <= a < b < u.len() implies (#[trigger] u[a]).0 != (#[trigger] u[b]).0 by {
        let ja = choose|j: int| 0 <= j < t.len() && u[a] == t[j] && g[a].0 == gamma_key_of(t[j].0);
        let jb = choose|j: int| 0 <= j < t.len() && u[b] == t[j] && g[b].0 == gamma_key_of(t[j].0);
        assert(g[a].0 != g[b].0);
        if u[a].0 == u[b].0 {
            if ja < jb {
                assert(t[ja].0 != t[jb].0);
            } else if jb < ja {
                assert(t[jb].0 != t[ja].0);
            }
        }
    }
    assert forall|i: int| 0 <= i < u.len() implies fits((#[trigger] u[i]).1) by {
        let j = choose|j: int| 0 <= j < t.len() && u[i] == t[j] && g[i].0 == gamma_key_of(t[j].0);
    }
    lemma_accumulate_distinct(u);
    assert forall|w: Word| coeff_in(u, w) == coeff_in(t, w) by {
        lemma_coeff_in_distinct(u, w);
        lemma_coeff_in_distinct(t, w);
        if exists|j: int| 0 <= j < t.len() && (#[trigger] t[j]).0 == w {
            let j = choose|j: int| 0 <= j < t.len() && (#[trigger] t[j]).0 == w;
            let v = gamma_key_of(w);
            lemma_key_round_trip(w);
            lemma_coeff_in_distinct(s, v);
            assert(s[j] == (v, t[j].1));
            assert(coeff_in(s, v) == t[j].1);
            assert(coeff(collect(s), v) == coeff_in(s, v));
            assert(big.contains_key(v));
            let i = choose|i: int| 0 <= i < g.len() && (#[trigger] g[i]).0 == v;
            assert(big[g[i].0] == g[i].1);
            assert(u[i] == (delta_key_of(g[i].0), g[i].1));
            assert(u[i].0 == w);
        } else {
            if exists|i: int| 0 <= i < u.len() && (#[trigger] u[i]).0 == w {
                let i = choose|i: int| 0 <= i < u.len() && (#[trigger] u[i]).0 == w;
                let j = choose|j: int| 0 <= j < t.len() && u[i] == t[j] && g[i].0 == gamma_key_of(t[j].0);
                assert(t[j].0 == w);
            }
        }
    }
    lemma_collect_same(u, t);
}

} // verus!
