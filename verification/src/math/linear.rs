//! Formal sums: sparse integer combinations of monomials.

use vstd::prelude::*;
use crate::base::word_order::{WordOrder, word_compare, word_less, lemma_compare_equal,
    lemma_compare_mirror, lemma_less_transitive};
use vstd::arithmetic::div_mod::lemma_fundamental_div_mod;
use crate::base::string_tools::{char_codes, compare_text, decimal, decimal_digits, decimal_text};
use vstd::string::StringExecFns;
use crate::base::vector_like::{Atom, VectorLike};
use crate::math::terms::{Word, SumMap, TermSeq, fits, coeff, zero_free, add_term, single_map,
    coeff_in, collect, canonical, l1_of, map_add, map_scale, map_sub, map_div, all_fit, accumulate,
    expand_step,
    divisible, all_divisible, lemma_coeff_in_insert, lemma_coeff_in_remove,
    lemma_coeff_in_update, lemma_collect_canonical, lemma_canonical_distinct,
    lemma_coeff_in_distinct, lemma_coeff_in_prepend, lemma_l1_push,
    lemma_canonical_unique};

verus! {

/// The coefficient type of a formal sum.
pub type Coeff = i32;

/// What a type must offer to serve as the monomial of a formal sum.
///
/// A monomial is known to the algebra by its key, a word of integer codes.
/// Two monomials are the same term exactly when their keys are equal, and the
/// monomials are ordered as their keys are, lexicographically.
pub trait LinearMonom: Sized {
    /// The word of integer codes that identifies and orders this monomial.
    spec fn key(&self) -> Seq<int>;

    /// Compares two monomials by their keys.
    fn compare(&self, other: &Self) -> (r: WordOrder)
        ensures
            r == word_compare(self.key(), other.key()),
    ;

    /// A copy with the same key.
    fn duplicate(&self) -> (r: Self)
        ensures
            r.key() == self.key(),
    ;
}

/// A monomial that can be multiplied with another of its kind: the product
/// is the one word written after the other.
pub trait TensorProduct: LinearMonom {
    /// The product of this monomial with `rhs`.
    fn tensor_product(&self, rhs: &Self) -> (r: Self)
        ensures
            r.key() == self.key() + rhs.key(),
    ;
}

/// A monomial that can be turned into a vector of atoms and back.
pub trait MonomVectorizable: LinearMonom {
    /// The atoms of the monomial.
    type Element: Atom;

    /// The vector that holds the atoms.
    type AsVector: LinearMonom + VectorLike<Self::Element>;

    /// The atoms of the monomial as a vector.
    fn to_vector(self) -> (r: Self::AsVector)
        ensures
            r.key() == self.key(),
    ;

    /// The monomial of the atoms of a vector.
    fn from_vector(v: Self::AsVector) -> (r: Self)
        ensures
            r.key() == v.key(),
    ;
}

/// Why an exact integer computation could not be carried out.
#[derive(Clone, Copy, PartialEq, Eq, Debug, Structural)]
pub enum ArithmeticError {
    /// A coefficient left the range of the coefficient type.
    Overflow,
    /// A coefficient was not evenly divisible by the denominator.
    NotDivisible,
    /// The shuffle of the Lyndon factors of a word did not hold the word
    /// itself with the coefficient 1.
    NotUnit,
    /// A word that was to replace another in the reduction to the Lyndon
    /// basis was not smaller than the word it replaces.
    NotSmaller,
}

/// `v`, or its negative.
pub open spec fn signed(v: int, negative: bool) -> int {
    if negative {
        -v
    } else {
        v
    }
}

/// The terms that a sequence of monomials with coefficients stands for.
pub open spec fn term_list<M: LinearMonom>(v: Seq<(M, Coeff)>) -> TermSeq {
    Seq::new(v.len(), |i: int| (v[i].0.key(), v[i].1 as int))
}

/// A formal sum of monomials with integer coefficients.
///
/// The terms are kept in strictly increasing order of key and none has the
/// coefficient zero, so a sum has exactly one stored form.
#[derive(Clone, Debug)]
pub struct BasicLinear<M: LinearMonom> {
    data: Vec<(M, Coeff)>,
}

impl<M: LinearMonom> View for BasicLinear<M> {
    type V = SumMap;

    /// The sum as a map from keys to nonzero coefficients.
    closed spec fn view(&self) -> SumMap {
        collect(self.terms())
    }
}

impl<M: LinearMonom> BasicLinear<M> {
    /// The stored monomials with their coefficients, in the order in which
    /// they are stored.
    pub closed spec fn entries(&self) -> Seq<(M, Coeff)> {
        self.data@
    }

    /// The stored terms, in the order in which they are stored.
    pub closed spec fn terms(&self) -> TermSeq {
        term_list(self.data@)
    }

    /// The stored form is canonical: keys strictly increasing, no zero coefficient.
    pub closed spec fn wf(&self) -> bool {
        canonical(self.terms())
    }

    /// How the stored terms and the model belong together.
    pub proof fn lemma_view(&self)
        ensures
            self.terms() == term_list(self.entries()),
            self@ == collect(self.terms()),
            self.wf() == canonical(self.terms()),
            forall|i: int| 0 <= i < self.terms().len() ==> fits((#[trigger] self.terms()[i]).1),
    {
    }

    /// No stored coefficient is zero, and the model holds exactly the stored terms.
    pub proof fn lemma_zero_free(&self)
        requires
            self.wf(),
        ensures
            zero_free(self@),
            forall|w: Word| self@.contains_key(w) ==> fits(#[trigger] self@[w]),
            forall|i: int| 0 <= i < self.terms().len() ==> self@.contains_key((#[trigger] self.terms()[i]).0)
                && self@[self.terms()[i].0] == self.terms()[i].1,
            forall|w: Word| #[trigger] self@.contains_key(w) ==> exists|i: int| 0 <= i < self.terms().len() && (#[trigger] self.terms()[i]).0 == w,
    {
        lemma_collect_canonical(self.terms());
        assert forall|w: Word| self@.contains_key(w) implies fits(#[trigger] self@[w]) by {
            let i = choose|i: int| 0 <= i < self.terms().len() && (#[trigger] self.terms()[i]).0 == w;
            assert(self@[self.terms()[i].0] == self.terms()[i].1);
        }
    }

    /// The empty sum.
    pub fn zero() -> (r: Self)
        ensures
            r.wf(),
            r@ == Map::<Seq<int>, int>::empty(),
            r.terms() == Seq::<(Seq<int>, int)>::empty(),
    {
        let r = Self { data: Vec::new() };
        assert(r.terms() =~= Seq::<(Seq<int>, int)>::empty());
        assert(r@ =~= Map::<Seq<int>, int>::empty());
        r
    }

    /// Where the key of `monom` stands among the stored terms: whether a term
    /// holds it, and the position at which it is or would be stored.
    fn locate(&self, monom: &M) -> (r: (bool, usize))
        requires
            self.wf(),
        ensures
            r.1 <= self.terms().len(),
            r.0 ==> r.1 < self.terms().len() && self.terms()[r.1 as int].0 == monom.key(),
            forall|i: int| 0 <= i < r.1 ==> word_less((#[trigger] self.terms()[i]).0, monom.key()),
            forall|i: int| r.1 + (if r.0 { 1int } else { 0int }) <= i < self.terms().len() ==> word_less(monom.key(), (#[trigger] self.terms()[i]).0),
    {
        let ghost t = self.terms();
        let ghost k = monom.key();
        let mut lo: usize = 0;
        let mut hi: usize = self.data.len();
        while lo < hi
            invariant
                lo <= hi <= self.data.len(),
                t == self.terms(),
                t.len() == self.data.len(),
                k == monom.key(),
                canonical(t),
                forall|i: int| 0 <= i < lo ==> word_less((#[trigger] t[i]).0, k),
                forall|i: int| hi <= i < t.len() ==> word_less(k, (#[trigger] t[i]).0),
            decreases hi - lo,
        {
            let mid = lo + (hi - lo) / 2;
            let c = self.data[mid].0.compare(monom);
            assert(t[mid as int].0 == self.data@[mid as int].0.key());
            match c {
                WordOrder::Less => {
                    proof {
                        assert forall|i: int| 0 <= i < mid + 1 implies word_less((#[trigger] t[i]).0, k) by {
                            if i < mid {
                                assert(word_less(t[i].0, t[mid as int].0));
                                lemma_less_transitive(t[i].0, t[mid as int].0, k);
                            }
                        }
                    }
                    lo = mid + 1;
                },
                WordOrder::Equal => {
                    proof {
                        lemma_compare_equal(t[mid as int].0, k);
                        assert forall|i: int| 0 <= i < mid implies word_less((#[trigger] t[i]).0, k) by {
                            assert(word_less(t[i].0, t[mid as int].0));
                        }
                        assert forall|i: int| mid + 1 <= i < t.len() implies word_less(k, (#[trigger] t[i]).0) by {
                            assert(word_less(t[mid as int].0, t[i].0));
                        }
                    }
                    return (true, mid);
                },
                WordOrder::Greater => {
                    proof {
                        lemma_compare_mirror(t[mid as int].0, k);
                        assert forall|i: int| mid <= i < t.len() implies word_less(k, (#[trigger] t[i]).0) by {
                            if mid < i {
                                assert(word_less(t[mid as int].0, t[i].0));
                                lemma_less_transitive(k, t[mid as int].0, t[i].0);
                            }
                        }
                    }
                    hi = mid;
                },
            }
        }
        (false, lo)
    }

    /// The coefficient of `monom`, zero if the sum has no such term.
    pub fn coeff_for(&self, monom: &M) -> (r: Coeff)
        requires
            self.wf(),
        ensures
            r == coeff(self@, monom.key()),
    {
        let (found, idx) = self.locate(monom);
        proof {
            self.lemma_located(monom.key(), found, idx as int);
        }
        if found {
            self.data[idx].1
        } else {
            0
        }
    }

    /// What a located key says of the model.
    proof fn lemma_located(&self, k: Word, found: bool, idx: int)
        requires
            self.wf(),
            0 <= idx <= self.terms().len(),
            found ==> idx < self.terms().len() && self.terms()[idx].0 == k,
            forall|i: int| 0 <= i < idx ==> word_less((#[trigger] self.terms()[i]).0, k),
            forall|i: int| idx + (if found { 1int } else { 0int }) <= i < self.terms().len() ==> word_less(k, (#[trigger] self.terms()[i]).0),
        ensures
            found ==> coeff(self@, k) == self.terms()[idx].1 && self@.contains_key(k),
            !found ==> coeff(self@, k) == 0 && !self@.contains_key(k),
    {
        let t = self.terms();
        lemma_canonical_distinct(t);
        lemma_coeff_in_distinct(t, k);
        if !found {
            assert forall|i: int| 0 <= i < t.len() implies (#[trigger] t[i]).0 != k by {
                if i < idx {
                    assert(word_less(t[i].0, k));
                    lemma_compare_equal(t[i].0, k);
                } else {
                    assert(word_less(k, t[i].0));
                    lemma_compare_equal(k, t[i].0);
                }
            }
        }
    }

    /// Adds `v` to the coefficient of `monom`. A term whose coefficient
    /// becomes zero is removed. Where the new coefficient would leave the
    /// range of the coefficient type, the sum stays as it is.
    pub fn add_to(&mut self, monom: M, v: Coeff) -> (r: Result<(), ArithmeticError>)
        requires
            old(self).wf(),
        ensures
            final(self).wf(),
            fits(coeff(old(self)@, monom.key()) + v) ==> r is Ok && final(self)@ == add_term(
                old(self)@,
                monom.key(),
                v as int,
            ),
            !fits(coeff(old(self)@, monom.key()) + v) ==> r == Err::<(), ArithmeticError>(
                ArithmeticError::Overflow,
            ) && final(self)@ == old(self)@ && final(self).terms() == old(self).terms(),
    {
        self.merge(monom, v, false)
    }

    /// Subtracts `v` from the coefficient of `monom`, as `add_to` adds it.
    pub fn sub_from(&mut self, monom: M, v: Coeff) -> (r: Result<(), ArithmeticError>)
        requires
            old(self).wf(),
        ensures
            final(self).wf(),
            fits(coeff(old(self)@, monom.key()) - v) ==> r is Ok && final(self)@ == add_term(
                old(self)@,
                monom.key(),
                -(v as int),
            ),
            !fits(coeff(old(self)@, monom.key()) - v) ==> r == Err::<(), ArithmeticError>(
                ArithmeticError::Overflow,
            ) && final(self)@ == old(self)@ && final(self).terms() == old(self).terms(),
    {
        self.merge(monom, v, true)
    }

    /// Adds `v` to the coefficient of `monom`, or subtracts it.
    fn merge(&mut self, monom: M, v: Coeff, subtract: bool) -> (r: Result<(), ArithmeticError>)
        requires
            old(self).wf(),
        ensures
            final(self).wf(),
            fits(coeff(old(self)@, monom.key()) + signed(v as int, subtract)) ==> r is Ok && final(self)@ == add_term(old(self)@, monom.key(), signed(v as int, subtract)),
            !fits(coeff(old(self)@, monom.key()) + signed(v as int, subtract)) ==> r == Err::<
                (),
                ArithmeticError,
            >(ArithmeticError::Overflow) && final(self)@ == old(self)@ && final(self).terms()
                == old(self).terms(),
    {
        let ghost t = self.terms();
        let ghost k = monom.key();
        let (found, idx) = self.locate(&monom);
        proof {
            self.lemma_located(k, found, idx as int);
        }
        let ghost dv = signed(v as int, subtract);
        if found {
            let c = self.data[idx].1;
            let sum = if subtract {
                c.checked_sub(v)
            } else {
                c.checked_add(v)
            };
            match sum {
                None => Err(ArithmeticError::Overflow),
                Some(n) => {
                    if n != 0 {
                        self.data.set(idx, (monom, n));
                        proof {
                            let x = (k, n as int);
                            assert(self.terms() =~= t.update(idx as int, x));
                            assert(canonical(self.terms()));
                            assert(self@ =~= add_term(old(self)@, k, dv)) by {
                                assert forall|w: Word| coeff_in(self.terms(), w) == coeff_in(t, w) + if w == k { dv } else { 0 } by {
                                    lemma_coeff_in_update(t, idx as int, x, w);
                                }
                            }
                        }
                    } else {
                        self.data.remove(idx);
                        proof {
                            assert(self.terms() =~= t.remove(idx as int));
                            assert(canonical(self.terms()));
                            assert(self@ =~= add_term(old(self)@, k, dv)) by {
                                assert forall|w: Word| coeff_in(self.terms(), w) == coeff_in(t, w) + if w == k { dv } else { 0 } by {
                                    lemma_coeff_in_remove(t, idx as int, w);
                                }
                            }
                        }
                    }
                    Ok(())
                },
            }
        } else {
            let fresh = if subtract {
                0i32.checked_sub(v)
            } else {
                Some(v)
            };
            let n = match fresh {
                None => {
                    return Err(ArithmeticError::Overflow);
                },
                Some(n) => n,
            };
            if n != 0 {
                self.data.insert(idx, (monom, n));
                proof {
                    let x = (k, n as int);
                    assert(self.terms() =~= t.insert(idx as int, x));
                    assert(canonical(self.terms())) by {
                        let s = self.terms();
                        assert forall|i: int, j: int| 0 <= i < j < s.len() implies word_less(#[trigger] s[i].0, #[trigger] s[j].0) by {
                            if j < idx {
                                assert(s[i] == t[i] && s[j] == t[j]);
                            } else if j == idx {
                                assert(s[i] == t[i]);
                            } else if i < idx {
                                assert(s[i] == t[i] && s[j] == t[j - 1]);
                            } else if i == idx {
                                assert(s[j] == t[j - 1]);
                            } else {
                                assert(s[i] == t[i - 1] && s[j] == t[j - 1]);
                            }
                        }
                        assert forall|i: int| 0 <= i < s.len() implies (#[trigger] s[i]).1 != 0 by {
                            if i < idx {
                                assert(s[i] == t[i]);
                            } else if i > idx {
                                assert(s[i] == t[i - 1]);
                            }
                        }
                    }
                    assert(self@ =~= add_term(old(self)@, k, dv)) by {
                        assert forall|w: Word| coeff_in(self.terms(), w) == coeff_in(t, w) + if w == k { dv } else { 0 } by {
                            lemma_coeff_in_insert(t, idx as int, x, w);
                        }
                    }
                }
            } else {
                assert(self@ =~= add_term(old(self)@, k, dv));
            }
            Ok(())
        }
    }
}

/// Adding a term to the sum of a list gives the sum of the list with that term appended.
pub proof fn lemma_collect_push(t: TermSeq, k: Word, v: int)
    ensures
        add_term(collect(t), k, v) == collect(t.push((k, v))),
{
    assert(t.push((k, v)).drop_last() =~= t);
    assert(add_term(collect(t), k, v) =~= collect(t.push((k, v))));
}

/// The norm of a beginning of a list is at most the norm of the list.
pub proof fn lemma_l1_monotone(t: TermSeq, i: int)
    requires
        0 <= i <= t.len(),
    ensures
        0 <= l1_of(t.take(i)) <= l1_of(t),
    decreases t.len() - i,
{
    if i < t.len() {
        lemma_l1_monotone(t, i + 1);
        assert(t.take(i + 1) =~= t.take(i).push(t[i]));
        lemma_l1_push(t.take(i), t[i]);
    } else {
        assert(t.take(i) =~= t);
        if t.len() > 0 {
            assert(t.drop_last().push(t.last()) =~= t);
            lemma_l1_push(t.drop_last(), t.last());
        }
    }
}

impl<M: LinearMonom> BasicLinear<M> {
    /// The sum of the absolute values of the coefficients.
    pub open spec fn norm(&self) -> int {
        l1_of(self.terms())
    }

    /// A sum in canonical form is stored as the canonical list of its model.
    pub proof fn lemma_terms_of_view(&self, t: TermSeq)
        requires
            self.wf(),
            canonical(t),
            self@ == collect(t),
        ensures
            self.terms() == t,
    {
        lemma_canonical_unique(self.terms(), t);
    }

    /// The sum with the coefficient 1 on `monom`.
    pub fn single(monom: M) -> (r: Self)
        ensures
            r.wf(),
            r@ == single_map(monom.key(), 1),
    {
        let mut r = Self::zero();
        let res = r.add_to(monom, 1);
        r
    }

    /// The sum of the monomials of a collection, each counted as often as it occurs.
    pub fn from_collection(collection: &[M]) -> (r: Self)
        requires
            collection@.len() <= i32::MAX,
        ensures
            r.wf(),
            r@ == collect(Seq::new(collection@.len(), |i: int| (collection@[i].key(), 1int))),
    {
        let ghost all = Seq::new(collection@.len(), |i: int| (collection@[i].key(), 1int));
        let mut r = Self::zero();
        let mut i: usize = 0;
        assert(all.take(0) =~= Seq::<(Seq<int>, int)>::empty());
        while i < collection.len()
            invariant
                i <= collection@.len() <= i32::MAX,
                all == Seq::new(collection@.len(), |i: int| (collection@[i].key(), 1int)),
                r.wf(),
                r@ == collect(all.take(i as int)),
                forall|w: Word| 0 <= #[trigger] coeff(r@, w) <= i,
            decreases collection@.len() - i,
        {
            let m = collection[i].duplicate();
            let ghost before = r@;
            assert(0 <= coeff(r@, m.key()) <= i);
            let res = r.add_to(m, 1);
            proof {
                lemma_collect_push(all.take(i as int), m.key(), 1);
                assert(all.take(i as int).push((m.key(), 1int)) =~= all.take(i + 1));
                assert forall|w: Word| 0 <= #[trigger] coeff(r@, w) <= i + 1 by {
                    assert(0 <= coeff(before, w) <= i);
                }
            }
            i += 1;
        }
        assert(all.take(i as int) =~= all);
        r
    }

    /// Whether this is the empty sum.
    pub fn is_zero(&self) -> (r: bool)
        requires
            self.wf(),
        ensures
            r == (self@ == Map::<Seq<int>, int>::empty()),
            r == (self.terms().len() == 0),
    {
        proof {
            self.lemma_zero_free();
            if self.terms().len() == 0 {
                assert(self@ =~= Map::<Seq<int>, int>::empty());
            } else {
                assert(self@.contains_key(self.terms()[0].0));
            }
        }
        self.data.len() == 0
    }

    /// The number of terms.
    pub fn len(&self) -> (n: usize)
        ensures
            n == self.terms().len(),
    {
        self.data.len()
    }

    /// The sum of the absolute values of the coefficients, if it is in the
    /// range of the coefficient type.
    pub fn l1_norm(&self) -> (r: Result<Coeff, ArithmeticError>)
        ensures
            fits(self.norm()) ==> r == Ok::<Coeff, ArithmeticError>(self.norm() as i32),
            !fits(self.norm()) ==> r == Err::<Coeff, ArithmeticError>(ArithmeticError::Overflow),
    {
        let ghost t = self.terms();
        let mut norm: Coeff = 0;
        let mut i: usize = 0;
        assert(t.take(0) =~= Seq::<(Seq<int>, int)>::empty());
        while i < self.data.len()
            invariant
                i <= self.data.len(),
                t == self.terms(),
                t.len() == self.data.len(),
                norm == l1_of(t.take(i as int)),
            decreases self.data.len() - i,
        {
            let c = self.data[i].1;
            proof {
                assert(t[i as int].1 == c);
                assert(t.take(i + 1) =~= t.take(i as int).push(t[i as int]));
                lemma_l1_push(t.take(i as int), t[i as int]);
                lemma_l1_monotone(t, i + 1);
            }
            if c == i32::MIN {
                return Err(ArithmeticError::Overflow);
            }
            let a: Coeff = if c < 0 {
                -c
            } else {
                c
            };
            match norm.checked_add(a) {
                None => {
                    return Err(ArithmeticError::Overflow);
                },
                Some(n) => {
                    norm = n;
                },
            }
            i += 1;
        }
        proof {
            assert(t.take(i as int) =~= t);
            lemma_l1_monotone(t, 0);
        }
        Ok(norm)
    }

    /// Divides every coefficient by `denominator`. Fails, and leaves the sum
    /// as it is, if a coefficient is not a whole multiple of the denominator
    /// or if a quotient leaves the range of the coefficient type.
    pub fn div_int(&mut self, denominator: Coeff) -> (r: Result<(), ArithmeticError>)
        requires
            old(self).wf(),
        ensures
            final(self).wf(),
            !all_divisible(old(self)@, denominator as int) ==> r == Err::<(), ArithmeticError>(
                ArithmeticError::NotDivisible,
            ) && final(self)@ == old(self)@,
            all_divisible(old(self)@, denominator as int) && !all_fit(
                map_div(old(self)@, denominator as int),
            ) ==> r == Err::<(), ArithmeticError>(ArithmeticError::Overflow) && final(self)@ == old(self)@,
            all_divisible(old(self)@, denominator as int) && all_fit(
                map_div(old(self)@, denominator as int),
            ) ==> r is Ok && final(self)@ == map_div(old(self)@, denominator as int),
    {
        let ghost t = self.terms();
        let ghost d = denominator as int;
        proof {
            self.lemma_zero_free();
        }
        let mut overflow = false;
        let mut i: usize = 0;
        while i < self.data.len()
            invariant
                i <= self.data.len(),
                *self == *old(self),
                self.wf(),
                t == self.terms(),
                t.len() == self.data.len(),
                d == denominator as int,
                forall|j: int| 0 <= j < t.len() ==> self@.contains_key((#[trigger] t[j]).0)
                    && self@[t[j].0] == t[j].1,
                forall|j: int| 0 <= j < i ==> divisible((#[trigger] t[j]).1, d),
                overflow <==> exists|j: int| 0 <= j < i && !fits((#[trigger] t[j]).1 / d),
            decreases self.data.len() - i,
        {
            let c = self.data[i].1;
            assert(t[i as int].1 == c);
            match c.checked_rem_euclid(denominator) {
                None => {
                    if denominator == 0 {
                        assert(self@.contains_key(t[i as int].0));
                        return Err(ArithmeticError::NotDivisible);
                    }
                    assert(c == i32::MIN && denominator == -1);
                    assert(!fits(t[i as int].1 / d));
                    overflow = true;
                },
                Some(rem) => {
                    if rem != 0 {
                        assert(self@.contains_key(t[i as int].0));
                        return Err(ArithmeticError::NotDivisible);
                    }
                    assert(fits(t[i as int].1 / d)) by {
                        lemma_quotient_fits(c as int, d);
                    }
                },
            }
            i += 1;
        }
        proof {
            self.lemma_zero_free();
            assert(all_divisible(self@, d)) by {
                assert forall|w: Word| self@.contains_key(w) implies divisible(#[trigger] self@[w], d) by {
                    let j = choose|j: int| 0 <= j < t.len() && (#[trigger] t[j]).0 == w;
                    assert(self@[t[j].0] == t[j].1);
                }
            }
        }
        if overflow {
            proof {
                let j = choose|j: int| 0 <= j < i && !fits((#[trigger] t[j]).1 / d);
                assert(self@.contains_key(t[j].0));
                assert(map_div(self@, d)[t[j].0] == t[j].1 / d);
                assert(map_div(self@, d).contains_key(t[j].0));
            }
            return Err(ArithmeticError::Overflow);
        }
        proof {
            assert(all_fit(map_div(self@, d))) by {
                assert forall|w: Word| map_div(self@, d).contains_key(w) implies fits(#[trigger] map_div(self@, d)[w]) by {
                    let j = choose|j: int| 0 <= j < t.len() && (#[trigger] t[j]).0 == w;
                    assert(self@[t[j].0] == t[j].1);
                }
            }
        }
        let mut k: usize = 0;
        while k < self.data.len()
            invariant
                k <= self.data.len(),
                t.len() == self.data.len(),
                canonical(t),
                d == denominator as int,
                forall|j: int| 0 <= j < t.len() ==> divisible((#[trigger] t[j]).1, d) && fits(t[j].1 / d),
                forall|j: int| 0 <= j < k ==> (#[trigger] self.terms()[j]) == (t[j].0, t[j].1 / d),
                forall|j: int| k <= j < t.len() ==> (#[trigger] self.terms()[j]) == t[j],
                self.terms().len() == t.len(),
            decreases self.data.len() - k,
        {
            let c = self.data[k].1;
            let ghost before = self.terms();
            assert(before[k as int] == t[k as int]);
            assert(divisible(t[k as int].1, d) && fits(t[k as int].1 / d));
            let q = c.checked_div_euclid(denominator).unwrap();
            self.data[k].1 = q;
            proof {
                assert(self.terms() =~= before.update(k as int, (t[k as int].0, t[k as int].1 / d)));
            }
            k += 1;
        }
        proof {
            let s = self.terms();
            assert(canonical(s)) by {
                assert forall|a: int, b: int| 0 <= a < b < s.len() implies word_less(#[trigger] s[a].0, #[trigger] s[b].0) by {
                    assert(s[a].0 == t[a].0 && s[b].0 == t[b].0);
                }
                assert forall|a: int| 0 <= a < s.len() implies (#[trigger] s[a]).1 != 0 by {
                    assert(s[a] == (t[a].0, t[a].1 / d));
                    assert(divisible(t[a].1, d));
                    lemma_fundamental_div_mod(t[a].1, d);
                    assert(t[a].1 != 0);
                }
            }
            self.lemma_zero_free();
            old(self).lemma_zero_free();
            assert(self@ =~= map_div(old(self)@, d)) by {
                assert forall|w: Word| self@.contains_key(w) == old(self)@.contains_key(w) by {
                    if self@.contains_key(w) {
                        let j = choose|j: int| 0 <= j < s.len() && (#[trigger] s[j]).0 == w;
                        assert(old(self)@.contains_key(t[j].0));
                    }
                    if old(self)@.contains_key(w) {
                        let j = choose|j: int| 0 <= j < t.len() && (#[trigger] t[j]).0 == w;
                        assert(self@.contains_key(s[j].0));
                    }
                }
                assert forall|w: Word| self@.contains_key(w) implies self@[w] == old(self)@[w] / d by {
                    let j = choose|j: int| 0 <= j < s.len() && (#[trigger] s[j]).0 == w;
                    assert(self@[s[j].0] == s[j].1);
                    assert(old(self)@[t[j].0] == t[j].1);
                }
            }
        }
        Ok(())
    }

    /// The terms, in increasing order of monomial.
    pub fn into_iter(self) -> (r: Vec<(M, Coeff)>)
        ensures
            r@ == self.entries(),
            term_list(r@) == self.terms(),
    {
        self.data
    }

    /// Copies of the terms, in increasing order of monomial.
    pub fn iter(&self) -> (r: Vec<(M, Coeff)>)
        ensures
            term_list(r@) == self.terms(),
    {
        let mut r: Vec<(M, Coeff)> = Vec::new();
        let mut i: usize = 0;
        while i < self.data.len()
            invariant
                i <= self.data.len(),
                r@.len() == i,
                forall|j: int| 0 <= j < i ==> (#[trigger] r@[j]).0.key() == self.data@[j].0.key() && r@[j].1
                    == self.data@[j].1,
            decreases self.data.len() - i,
        {
            let m = self.data[i].0.duplicate();
            let c = self.data[i].1;
            r.push((m, c));
            i += 1;
        }
        assert(term_list(r@) =~= self.terms());
        r
    }

    /// A copy of the sum: the same terms, in the same order.
    pub fn duplicate(&self) -> (r: Self)
        ensures
            r.terms() == self.terms(),
            r@ == self@,
            r.wf() == self.wf(),
    {
        Self { data: self.iter() }
    }

    /// Removes the term with the greatest monomial and returns it.
    pub fn pop_last(&mut self) -> (r: Option<(M, Coeff)>)
        requires
            old(self).wf(),
        ensures
            final(self).wf(),
            old(self).terms().len() == 0 ==> r is None && final(self)@ == old(self)@,
            old(self).terms().len() > 0 ==> r is Some && ((r->0).0.key(), (r->0).1 as int) == old(self).terms().last() && final(self).terms() == old(self).terms().drop_last() && final(self)@
                == old(self)@.remove((r->0).0.key()) && old(self)@.contains_key((r->0).0.key()) && old(self)@[(r->0).0.key()] == (r->0).1,
    {
        let ghost t = self.terms();
        let r = self.data.pop();
        proof {
            if t.len() > 0 {
                assert(self.terms() =~= t.drop_last());
                assert(t.drop_last() =~= t.remove(t.len() - 1));
                old(self).lemma_zero_free();
                assert(old(self)@.contains_key(t[t.len() - 1].0));
                assert(self@ =~= old(self)@.remove(t.last().0)) by {
                    assert forall|w: Word| coeff_in(self.terms(), w) == coeff_in(t, w) - if t.last().0 == w { t.last().1 } else { 0 } by {
                        lemma_coeff_in_remove(t, t.len() - 1, w);
                    }
                }
            } else {
                assert(self.terms() =~= t);
            }
        }
        r
    }
}

/// An exact quotient of a coefficient is in range unless the least
/// coefficient is divided by -1.
pub proof fn lemma_quotient_fits(c: int, d: int)
    requires
        fits(c),
        d != 0,
        !(c == i32::MIN && d == -1),
    ensures
        fits(c / d),
{
    if d > 0 {
        vstd::arithmetic::div_mod::lemma_div_is_ordered(c, i32::MAX as int, d);
        vstd::arithmetic::div_mod::lemma_div_is_ordered(i32::MIN as int, c, d);
        assert(i32::MAX as int / d <= i32::MAX) by (nonlinear_arith)
            requires d > 0;
        assert(i32::MIN as int / d >= i32::MIN) by (nonlinear_arith)
            requires d > 0;
    } else {
        assert(fits(c / d)) by (nonlinear_arith)
            requires d < 0, -2147483648 <= c <= 2147483647, !(c == -2147483648 && d == -1);
    }
}

/// What a coefficient-wise change of a canonical list does to the sum: the
/// keys stay, and each coefficient is changed as in the list.
pub proof fn lemma_collect_mapped(t: TermSeq, s: TermSeq, g: spec_fn(int) -> int)
    requires
        canonical(t),
        s.len() == t.len(),
        forall|j: int| 0 <= j < t.len() ==> (#[trigger] s[j]) == (t[j].0, g(t[j].1)),
        forall|j: int| 0 <= j < t.len() ==> g((#[trigger] t[j]).1) != 0,
    ensures
        canonical(s),
        forall|w: Word| collect(s).contains_key(w) == collect(t).contains_key(w),
        forall|w: Word| collect(t).contains_key(w) ==> #[trigger] collect(s)[w] == g(collect(t)[w]),
{
    assert(canonical(s)) by {
        assert forall|a: int, b: int| 0 <= a < b < s.len() implies word_less(#[trigger] s[a].0, #[trigger] s[b].0) by {
            assert(s[a].0 == t[a].0 && s[b].0 == t[b].0);
        }
        assert forall|a: int| 0 <= a < s.len() implies (#[trigger] s[a]).1 != 0 by {
            assert(s[a] == (t[a].0, g(t[a].1)));
            assert(g(t[a].1) != 0);
        }
    }
    lemma_collect_canonical(s);
    lemma_collect_canonical(t);
    assert forall|w: Word| collect(s).contains_key(w) == collect(t).contains_key(w) by {
        if collect(s).contains_key(w) {
            let j = choose|j: int| 0 <= j < s.len() && (#[trigger] s[j]).0 == w;
            assert(collect(t).contains_key(t[j].0));
        }
        if collect(t).contains_key(w) {
            let j = choose|j: int| 0 <= j < t.len() && (#[trigger] t[j]).0 == w;
            assert(collect(s).contains_key(s[j].0));
        }
    }
    assert forall|w: Word| collect(t).contains_key(w) implies #[trigger] collect(s)[w] == g(collect(t)[w]) by {
        let j = choose|j: int| 0 <= j < t.len() && (#[trigger] t[j]).0 == w;
        assert(collect(s)[s[j].0] == s[j].1);
        assert(collect(t)[t[j].0] == t[j].1);
    }
}

/// The sum or the difference of two sums.
pub open spec fn map_combine(a: SumMap, b: SumMap, subtract: bool) -> SumMap {
    if subtract {
        map_sub(a, b)
    } else {
        map_add(a, b)
    }
}

impl<M: LinearMonom> BasicLinear<M> {
    /// The product with the factor written on the left: `factor` times
    /// `expr`, which is `expr` times `factor`.
    pub fn times(factor: Coeff, expr: Self) -> (r: Result<Self, ArithmeticError>)
        requires
            expr.wf(),
        ensures
            match r {
                Ok(p) => p.wf() && p@ == map_scale(expr@, factor as int) && all_fit(
                    map_scale(expr@, factor as int),
                ),
                Err(e) => e == ArithmeticError::Overflow && !all_fit(
                    map_scale(expr@, factor as int),
                ),
            },
    {
        expr.mul(factor)
    }

    /// The sum with every coefficient multiplied by `factor`; the empty sum
    /// if `factor` is zero. Fails if a product leaves the range of the
    /// coefficient type.
    pub fn mul(self, factor: Coeff) -> (r: Result<Self, ArithmeticError>)
        requires
            self.wf(),
        ensures
            match r {
                Ok(p) => p.wf() && p@ == map_scale(self@, factor as int) && all_fit(
                    map_scale(self@, factor as int),
                ),
                Err(e) => e == ArithmeticError::Overflow && !all_fit(
                    map_scale(self@, factor as int),
                ),
            },
    {
        let ghost t = self.terms();
        let ghost a = self@;
        let ghost k = factor as int;
        if factor == 0 {
            let z = Self::zero();
            assert(z@ =~= map_scale(a, k));
            return Ok(z);
        }
        proof {
            self.lemma_zero_free();
        }
        let mut me = self;
        let mut i: usize = 0;
        while i < me.data.len()
            invariant
                i <= me.data.len(),
                t.len() == me.data.len(),
                me.terms().len() == t.len(),
                canonical(t),
                a == collect(t),
                a == self@,
                k == factor as int,
                k != 0,
                forall|j: int| 0 <= j < t.len() ==> a.contains_key((#[trigger] t[j]).0) && a[t[j].0]
                    == t[j].1,
                forall|j: int| 0 <= j < i ==> (#[trigger] me.terms()[j]) == (t[j].0, k * t[j].1),
                forall|j: int| i <= j < t.len() ==> (#[trigger] me.terms()[j]) == t[j],
            decreases me.data.len() - i,
        {
            let c = me.data[i].1;
            let ghost before = me.terms();
            assert(before[i as int] == t[i as int]);
            match c.checked_mul(factor) {
                None => {
                    proof {
                        let w = t[i as int].0;
                        assert(a.contains_key(w));
                        assert(coeff(a, w) == c);
                        assert(k * (c as int) == (c as int) * k) by (nonlinear_arith);
                        assert(!fits(k * (c as int)));
                        assert(k * coeff(a, w) != 0);
                        assert(map_scale(a, k).contains_key(w));
                        assert(!fits(map_scale(a, k)[w]));
                    }
                    return Err(ArithmeticError::Overflow);
                },
                Some(n) => {
                    me.data[i].1 = n;
                    proof {
                        assert(k * (c as int) == (c as int) * k) by (nonlinear_arith);
                        assert(me.terms() =~= before.update(i as int, (t[i as int].0, k * t[i as int].1)));
                    }
                },
            }
            i += 1;
        }
        proof {
            let s = me.terms();
            let g = |c: int| k * c;
            assert forall|j: int| 0 <= j < t.len() implies g((#[trigger] t[j]).1) != 0 by {
                let c = t[j].1;
                assert(c != 0);
                assert(k * c != 0) by (nonlinear_arith)
                    requires
                        k != 0,
                        c != 0,
                ;
            }
            assert forall|j: int| 0 <= j < t.len() implies (#[trigger] s[j]) == (t[j].0, g(t[j].1)) by {}
            lemma_collect_mapped(t, s, g);
            me.lemma_zero_free();
            assert(me@ =~= map_scale(a, k));
        }
        Ok(me)
    }

    /// The sum with every coefficient negated. Fails if a coefficient has no
    /// negative in the coefficient type.
    pub fn neg(self) -> (r: Result<Self, ArithmeticError>)
        requires
            self.wf(),
        ensures
            match r {
                Ok(p) => p.wf() && p@ == map_scale(self@, -1) && all_fit(map_scale(self@, -1)),
                Err(e) => e == ArithmeticError::Overflow && !all_fit(map_scale(self@, -1)),
            },
    {
        self.mul(-1)
    }

    /// The sum of two sums. Fails if a coefficient leaves the range of the
    /// coefficient type.
    pub fn add(self, rhs: Self) -> (r: Result<Self, ArithmeticError>)
        requires
            self.wf(),
            rhs.wf(),
        ensures
            match r {
                Ok(p) => p.wf() && p@ == map_add(self@, rhs@) && all_fit(map_add(self@, rhs@)),
                Err(e) => e == ArithmeticError::Overflow && !all_fit(map_add(self@, rhs@)),
            },
    {
        self.combine(rhs, false)
    }

    /// The difference of two sums. Fails if a coefficient leaves the range of
    /// the coefficient type.
    pub fn sub(self, rhs: Self) -> (r: Result<Self, ArithmeticError>)
        requires
            self.wf(),
            rhs.wf(),
        ensures
            match r {
                Ok(p) => p.wf() && p@ == map_sub(self@, rhs@) && all_fit(map_sub(self@, rhs@)),
                Err(e) => e == ArithmeticError::Overflow && !all_fit(map_sub(self@, rhs@)),
            },
    {
        self.combine(rhs, true)
    }

    /// The sum or the difference of two sums.
    fn combine(self, other: Self, subtract: bool) -> (r: Result<Self, ArithmeticError>)
        requires
            self.wf(),
            other.wf(),
        ensures
            match r {
                Ok(p) => p.wf() && p@ == map_combine(self@, other@, subtract) && all_fit(
                    map_combine(self@, other@, subtract),
                ),
                Err(e) => e == ArithmeticError::Overflow && !all_fit(
                    map_combine(self@, other@, subtract),
                ),
            },
    {
        let ghost a = self@;
        let ghost b = other@;
        let ghost t = other.terms();
        let mut rhs = other;
        let ghost goal = map_combine(a, b, subtract);
        let mut acc = self;
        proof {
            rhs.lemma_zero_free();
            lemma_canonical_distinct(t);
            assert(t.skip(t.len() as int) =~= Seq::<(Seq<int>, int)>::empty());
        }
        loop
            invariant
                acc.wf(),
                canonical(t),
                b == collect(t),
                a == self@,
                b == other@,
                goal == map_combine(a, b, subtract),
                rhs.data@.len() <= t.len(),
                rhs.terms() == t.take(rhs.data@.len() as int),
                forall|w: Word| coeff(acc@, w) == coeff(a, w) + signed(coeff_in(t.skip(rhs.data@.len() as int), w), subtract),
                forall|i: int, j: int| 0 <= i < j < t.len() ==> (#[trigger] t[i]).0 != (#[trigger] t[j]).0,
            ensures
                acc.wf(),
                acc@ == goal,
                all_fit(goal),
            decreases rhs.data@.len(),
        {
            let ghost n = rhs.data@.len() as int;
            let ghost before = acc@;
            match rhs.data.pop() {
                None => {
                    proof {
                        assert(t.skip(0) =~= t);
                        acc.lemma_zero_free();
                        assert forall|w: Word| acc@.contains_key(w) == goal.contains_key(w) by {
                            assert(coeff(acc@, w) == coeff(a, w) + signed(coeff_in(t, w), subtract));
                            if acc@.contains_key(w) {
                                assert(acc@[w] != 0);
                            }
                        }
                        assert forall|w: Word| acc@.contains_key(w) implies acc@[w] == goal[w] by {
                            assert(coeff(acc@, w) == coeff(a, w) + signed(coeff_in(t, w), subtract));
                        }
                        assert(acc@ =~= goal);
                    }
                    break ;
                },
                Some(x) => {
                    let (m, c) = x;
                    proof {
                        assert(t.take(n)[n - 1] == t[n - 1]);
                        assert(rhs.terms() =~= t.take(n - 1));
                        assert((m.key(), c as int) == t[n - 1]);
                        let rest = t.skip(n);
                        assert(t.skip(n - 1) =~= seq![t[n - 1]] + rest);
                        assert forall|w: Word| coeff_in(t.skip(n - 1), w) == coeff_in(rest, w) + if t[n - 1].0 == w { t[n - 1].1 } else { 0 } by {
                            lemma_coeff_in_prepend(t[n - 1], rest, w);
                        }
                        // No later term holds the key of this one.
                        assert(forall|i: int, j: int| 0 <= i < j < rest.len() ==> (#[trigger] rest[i]).0 != (#[trigger] rest[j]).0) by {
                            assert forall|i: int, j: int| 0 <= i < j < rest.len() implies (#[trigger] rest[i]).0 != (#[trigger] rest[j]).0 by {
                                assert(rest[i] == t[n + i] && rest[j] == t[n + j]);
                            }
                        }
                        assert forall|i: int| 0 <= i < rest.len() implies (#[trigger] rest[i]).0 != m.key() by {
                            assert(rest[i] == t[n + i]);
                            assert(t[n - 1].0 != t[n + i].0);
                        }
                        lemma_coeff_in_distinct(rest, m.key());
                        lemma_coeff_in_distinct(t, m.key());
                        assert(coeff_in(t, m.key()) == c);
                        assert(coeff(b, m.key()) == c);
                        assert(coeff(acc@, m.key()) == coeff(a, m.key()));
                    }
                    let ghost k = m.key();
                    let res = acc.merge(m, c, subtract);
                    match res {
                        Err(e) => {
                            proof {
                                assert(!fits(coeff(a, k) + signed(c as int, subtract)));
                                assert(goal.contains_key(k));
                                assert(!fits(goal[k]));
                            }
                            return Err(ArithmeticError::Overflow);
                        },
                        Ok(_) => {
                            proof {
                                assert forall|w: Word| coeff(acc@, w) == coeff(a, w) + signed(coeff_in(t.skip(n - 1), w), subtract) by {
                                    assert(coeff(before, w) == coeff(a, w) + signed(coeff_in(t.skip(n), w), subtract));
                                }
                            }
                        },
                    }
                },
            }
        }
        Ok(acc)
    }

    /// Whether the two sums are the same sum.
    pub fn equals(&self, other: &Self) -> (r: bool)
        ensures
            r == (self.terms() == other.terms()),
            self.wf() && other.wf() ==> r == (self@ == other@),
    {
        proof {
            if self.wf() && other.wf() && self@ == other@ {
                lemma_canonical_unique(self.terms(), other.terms());
            }
            assert(self.terms().len() == self.data@.len());
            assert(other.terms().len() == other.data@.len());
        }
        if self.data.len() != other.data.len() {
            assert(self.terms().len() != other.terms().len());
            return false;
        }
        let mut i: usize = 0;
        while i < self.data.len()
            invariant
                i <= self.data.len(),
                self.data.len() == other.data.len(),
                self.terms().len() == other.terms().len(),
                forall|j: int| 0 <= j < i ==> self.terms()[j] == other.terms()[j],
            decreases self.data.len() - i,
        {
            let o = self.data[i].0.compare(&other.data[i].0);
            proof {
                lemma_compare_equal(self.terms()[i as int].0, other.terms()[i as int].0);
            }
            let same = match o {
                WordOrder::Equal => self.data[i].1 == other.data[i].1,
                _ => false,
            };
            if !same {
                proof {
                    assert(self.terms()[i as int] != other.terms()[i as int]);
                    if self.wf() && other.wf() && self@ == other@ {
                        lemma_canonical_unique(self.terms(), other.terms());
                    }
                }
                return false;
            }
            i += 1;
        }
        assert(self.terms() =~= other.terms());
        true
    }
}

impl LinearMonom for String {
    /// A label is ordered by its code points.
    open spec fn key(&self) -> Seq<int> {
        char_codes(self@)
    }

    fn compare(&self, other: &Self) -> (r: WordOrder) {
        compare_text(self.as_str(), other.as_str())
    }

    fn duplicate(&self) -> (r: Self) {
        self.clone()
    }
}

/// A formal sum with a second, independent sum of free-text labels.
///
/// The labels say in words what the sum is. They take part in the arithmetic
/// as the terms do, and mean nothing to the algebra.
#[derive(Clone, Debug)]
pub struct Linear<M: LinearMonom> {
    main: BasicLinear<M>,
    annotations: BasicLinear<String>,
}

impl<M: LinearMonom> View for Linear<M> {
    type V = SumMap;

    /// The sum of the monomials, without the labels.
    closed spec fn view(&self) -> SumMap {
        self.main@
    }
}

impl<M: LinearMonom> Linear<M> {
    /// The sum of the labels.
    pub closed spec fn labels(&self) -> SumMap {
        self.annotations@
    }

    /// The stored monomials with their coefficients, in increasing order of
    /// monomial.
    pub closed spec fn entries(&self) -> Seq<(M, Coeff)> {
        self.main.entries()
    }

    /// The stored terms, in increasing order of monomial.
    pub closed spec fn terms(&self) -> TermSeq {
        self.main.terms()
    }

    /// The stored labels with their counts, in increasing order of label.
    pub closed spec fn label_entries(&self) -> Seq<(String, Coeff)> {
        self.annotations.entries()
    }

    /// The stored label terms, in increasing order of label.
    pub closed spec fn label_terms(&self) -> TermSeq {
        self.annotations.terms()
    }

    /// Both sums are stored in canonical form.
    pub closed spec fn wf(&self) -> bool {
        self.main.wf() && self.annotations.wf()
    }

    /// The sum of the absolute values of the coefficients.
    pub open spec fn norm(&self) -> int {
        l1_of(self.terms())
    }

    /// How the stored terms and the model belong together: the model is the
    /// sum of the stored terms, no stored coefficient is zero, and every
    /// coefficient is in the range of the coefficient type.
    pub proof fn lemma_view(&self)
        requires
            self.wf(),
        ensures
            self.terms() == term_list(self.entries()),
            self.label_terms() == term_list(self.label_entries()),
            self.labels() == collect(self.label_terms()),
            canonical(self.label_terms()),
            self@ == collect(self.terms()),
            canonical(self.terms()),
            zero_free(self@),
            zero_free(self.labels()),
            all_fit(self@),
            all_fit(self.labels()),
            forall|i: int| 0 <= i < self.terms().len() ==> self@.contains_key((#[trigger] self.terms()[i]).0)
                && self@[self.terms()[i].0] == self.terms()[i].1,
            forall|w: Word| #[trigger] self@.contains_key(w) ==> exists|i: int| 0 <= i < self.terms().len() && (#[trigger] self.terms()[i]).0 == w,
    {
        self.main.lemma_view();
        self.annotations.lemma_view();
        self.main.lemma_zero_free();
        self.annotations.lemma_zero_free();
        assert forall|w: Word| #[trigger] self@.contains_key(w) implies exists|i: int| 0 <= i < self.terms().len() && (#[trigger] self.terms()[i]).0 == w by {
            assert(self.main@.contains_key(w));
            let i = choose|i: int| 0 <= i < self.main.terms().len() && (#[trigger] self.main.terms()[i]).0 == w;
            assert(self.terms()[i].0 == w);
        }
    }

    /// A sum in canonical form is stored as the canonical list of its model.
    pub proof fn lemma_terms_of_view(&self, t: TermSeq)
        requires
            self.wf(),
            canonical(t),
            self@ == collect(t),
        ensures
            self.terms() == t,
    {
        self.main.lemma_terms_of_view(t);
    }

    /// A sum without labels stores no label.
    pub proof fn lemma_no_labels(&self)
        requires
            self.wf(),
            self.labels() == Map::<Seq<int>, int>::empty(),
        ensures
            self.label_terms().len() == 0,
            self.label_entries().len() == 0,
    {
        self.annotations.lemma_view();
        self.annotations.lemma_zero_free();
        if self.annotations.terms().len() > 0 {
            assert(self.annotations@.contains_key(self.annotations.terms()[0].0));
        }
    }

    /// The empty sum.
    pub fn zero() -> (r: Self)
        ensures
            r.wf(),
            r@ == Map::<Seq<int>, int>::empty(),
            r.labels() == Map::<Seq<int>, int>::empty(),
            r.terms() == Seq::<(Seq<int>, int)>::empty(),
    {
        Self { main: BasicLinear::zero(), annotations: BasicLinear::zero() }
    }

    /// The sum with the coefficient 1 on `monom`.
    pub fn single(monom: M) -> (r: Self)
        ensures
            r.wf(),
            r@ == single_map(monom.key(), 1),
            r.labels() == Map::<Seq<int>, int>::empty(),
    {
        Self { main: BasicLinear::single(monom), annotations: BasicLinear::zero() }
    }

    /// The sum of the monomials of a collection, each counted as often as it occurs.
    pub fn from_collection(collection: &[M]) -> (r: Self)
        requires
            collection@.len() <= i32::MAX,
        ensures
            r.wf(),
            r@ == collect(Seq::new(collection@.len(), |i: int| (collection@[i].key(), 1int))),
            r.labels() == Map::<Seq<int>, int>::empty(),
    {
        Self { main: BasicLinear::from_collection(collection), annotations: BasicLinear::zero() }
    }

    /// Copies of the terms, in increasing order of monomial.
    pub fn iter(&self) -> (r: Vec<(M, Coeff)>)
        ensures
            term_list(r@) == self.terms(),
    {
        self.main.iter()
    }

    /// The terms, in increasing order of monomial.
    pub fn into_iter(self) -> (r: Vec<(M, Coeff)>)
        ensures
            r@ == self.entries(),
            term_list(r@) == self.terms(),
    {
        self.main.into_iter()
    }

    /// A copy of the sum: the same terms and the same labels, in the same
    /// order.
    pub fn duplicate(&self) -> (r: Self)
        ensures
            r.terms() == self.terms(),
            r.label_terms() == self.label_terms(),
            r@ == self@,
            r.labels() == self.labels(),
            r.wf() == self.wf(),
    {
        Self { main: self.main.duplicate(), annotations: self.annotations.duplicate() }
    }

    /// Whether the sum has no term.
    pub fn is_zero(&self) -> (r: bool)
        requires
            self.wf(),
        ensures
            r == (self@ == Map::<Seq<int>, int>::empty()),
            r == (self.terms().len() == 0),
    {
        self.main.is_zero()
    }

    /// Whether the sum has neither a term nor a label.
    pub fn is_blank(&self) -> (r: bool)
        requires
            self.wf(),
        ensures
            r == (self@ == Map::<Seq<int>, int>::empty() && self.labels() == Map::<
                Seq<int>,
                int,
            >::empty()),
    {
        self.main.is_zero() && self.annotations.is_zero()
    }

    /// The number of terms.
    pub fn len(&self) -> (n: usize)
        ensures
            n == self.terms().len(),
    {
        self.main.len()
    }

    /// The sum of the absolute values of the coefficients, if it is in the
    /// range of the coefficient type.
    pub fn l1_norm(&self) -> (r: Result<Coeff, ArithmeticError>)
        ensures
            fits(self.norm()) ==> r == Ok::<Coeff, ArithmeticError>(self.norm() as i32),
            !fits(self.norm()) ==> r == Err::<Coeff, ArithmeticError>(ArithmeticError::Overflow),
    {
        self.main.l1_norm()
    }

    /// Divides every coefficient by `denominator`; the labels stay. Fails,
    /// and leaves the sum as it is, if a coefficient is not a whole multiple
    /// of the denominator or if a quotient leaves the range of the
    /// coefficient type.
    pub fn div_int(&mut self, denominator: Coeff) -> (r: Result<(), ArithmeticError>)
        requires
            old(self).wf(),
        ensures
            final(self).wf(),
            final(self).labels() == old(self).labels(),
            !all_divisible(old(self)@, denominator as int) ==> r == Err::<(), ArithmeticError>(
                ArithmeticError::NotDivisible,
            ) && final(self)@ == old(self)@,
            all_divisible(old(self)@, denominator as int) && !all_fit(
                map_div(old(self)@, denominator as int),
            ) ==> r == Err::<(), ArithmeticError>(ArithmeticError::Overflow) && final(self)@ == old(self)@,
            all_divisible(old(self)@, denominator as int) && all_fit(
                map_div(old(self)@, denominator as int),
            ) ==> r is Ok && final(self)@ == map_div(old(self)@, denominator as int),
    {
        self.main.div_int(denominator)
    }

    /// The coefficient of `monom`, zero if the sum has no such term.
    pub fn coeff_for(&self, monom: &M) -> (r: Coeff)
        requires
            self.wf(),
        ensures
            r == coeff(self@, monom.key()),
    {
        self.main.coeff_for(monom)
    }

    /// Adds `v` to the coefficient of `monom`. A term whose coefficient
    /// becomes zero is removed. Where the new coefficient would leave the
    /// range of the coefficient type, the sum stays as it is.
    pub fn add_to(&mut self, monom: M, v: Coeff) -> (r: Result<(), ArithmeticError>)
        requires
            old(self).wf(),
        ensures
            final(self).wf(),
            final(self).labels() == old(self).labels(),
            fits(coeff(old(self)@, monom.key()) + v) ==> r is Ok && final(self)@ == add_term(
                old(self)@,
                monom.key(),
                v as int,
            ),
            !fits(coeff(old(self)@, monom.key()) + v) ==> r == Err::<(), ArithmeticError>(
                ArithmeticError::Overflow,
            ) && final(self)@ == old(self)@ && final(self).terms() == old(self).terms(),
    {
        self.main.add_to(monom, v)
    }

    /// Subtracts `v` from the coefficient of `monom`, as `add_to` adds it.
    pub fn sub_from(&mut self, monom: M, v: Coeff) -> (r: Result<(), ArithmeticError>)
        requires
            old(self).wf(),
        ensures
            final(self).wf(),
            final(self).labels() == old(self).labels(),
            fits(coeff(old(self)@, monom.key()) - v) ==> r is Ok && final(self)@ == add_term(
                old(self)@,
                monom.key(),
                -(v as int),
            ),
            !fits(coeff(old(self)@, monom.key()) - v) ==> r == Err::<(), ArithmeticError>(
                ArithmeticError::Overflow,
            ) && final(self)@ == old(self)@ && final(self).terms() == old(self).terms(),
    {
        self.main.sub_from(monom, v)
    }

    /// Removes the term with the greatest monomial and returns it.
    pub fn pop_last(&mut self) -> (r: Option<(M, Coeff)>)
        requires
            old(self).wf(),
        ensures
            final(self).wf(),
            final(self).labels() == old(self).labels(),
            old(self).terms().len() == 0 ==> r is None && final(self)@ == old(self)@,
            old(self).terms().len() > 0 ==> r is Some && ((r->0).0.key(), (r->0).1 as int) == old(self).terms().last()
                && final(self).terms() == old(self).terms().drop_last() && final(self)@
                == old(self)@.remove((r->0).0.key()) && old(self)@.contains_key((r->0).0.key())
                && old(self)@[(r->0).0.key()] == (r->0).1,
    {
        self.main.pop_last()
    }

    /// The same sum with one more label: the count of `annotation` goes up by one.
    /// Fails if that count leaves the range of the coefficient type.
    pub fn annotate(self, annotation: String) -> (r: Result<Self, ArithmeticError>)
        requires
            self.wf(),
        ensures
            match r {
                Ok(p) => p.wf() && p@ == self@ && p.terms() == self.terms() && p.labels() == add_term(
                    self.labels(),
                    annotation.key(),
                    1,
                ) && fits(coeff(self.labels(), annotation.key()) + 1),
                Err(e) => e == ArithmeticError::Overflow && !fits(
                    coeff(self.labels(), annotation.key()) + 1,
                ),
            },
    {
        let mut me = self;
        match me.annotations.add_to(annotation, 1) {
            Ok(_) => Ok(me),
            Err(e) => Err(e),
        }
    }

    /// The same sum without its labels.
    pub fn drop_annotations(self) -> (r: Self)
        requires
            self.wf(),
        ensures
            r.wf(),
            r@ == self@,
            r.terms() == self.terms(),
            r.labels() == Map::<Seq<int>, int>::empty(),
    {
        Self { main: self.main, annotations: BasicLinear::zero() }
    }

    /// The sum with every coefficient, and every label count, negated.
    pub fn neg(self) -> (r: Result<Self, ArithmeticError>)
        requires
            self.wf(),
        ensures
            match r {
                Ok(p) => p.wf() && p@ == map_scale(self@, -1) && p.labels() == map_scale(
                    self.labels(),
                    -1,
                ) && all_fit(map_scale(self@, -1)) && all_fit(map_scale(self.labels(), -1)),
                Err(e) => e == ArithmeticError::Overflow && !(all_fit(map_scale(self@, -1))
                    && all_fit(map_scale(self.labels(), -1))),
            },
    {
        self.mul(-1)
    }

    /// The sum with every coefficient, and every label count, multiplied by
    /// `factor`. Fails if a product leaves the range of the coefficient type.
    pub fn mul(self, factor: Coeff) -> (r: Result<Self, ArithmeticError>)
        requires
            self.wf(),
        ensures
            match r {
                Ok(p) => p.wf() && p@ == map_scale(self@, factor as int) && p.labels()
                    == map_scale(self.labels(), factor as int) && all_fit(
                    map_scale(self@, factor as int),
                ) && all_fit(map_scale(self.labels(), factor as int)),
                Err(e) => e == ArithmeticError::Overflow && !(all_fit(
                    map_scale(self@, factor as int),
                ) && all_fit(map_scale(self.labels(), factor as int))),
            },
    {
        let main = self.main.mul(factor)?;
        let annotations = self.annotations.mul(factor)?;
        Ok(Self { main, annotations })
    }

    /// The product with the factor written on the left: `factor` times
    /// `expr`, which is `expr` times `factor`.
    pub fn times(factor: Coeff, expr: Self) -> (r: Result<Self, ArithmeticError>)
        requires
            expr.wf(),
        ensures
            match r {
                Ok(p) => p.wf() && p@ == map_scale(expr@, factor as int) && p.labels()
                    == map_scale(expr.labels(), factor as int) && all_fit(
                    map_scale(expr@, factor as int),
                ) && all_fit(map_scale(expr.labels(), factor as int)),
                Err(e) => e == ArithmeticError::Overflow && !(all_fit(
                    map_scale(expr@, factor as int),
                ) && all_fit(map_scale(expr.labels(), factor as int))),
            },
    {
        expr.mul(factor)
    }

    /// The sum of two sums, labels included. Fails if a coefficient or a
    /// label count leaves the range of the coefficient type.
    pub fn add(self, rhs: Self) -> (r: Result<Self, ArithmeticError>)
        requires
            self.wf(),
            rhs.wf(),
        ensures
            match r {
                Ok(p) => p.wf() && p@ == map_add(self@, rhs@) && p.labels() == map_add(
                    self.labels(),
                    rhs.labels(),
                ) && all_fit(map_add(self@, rhs@)) && all_fit(map_add(self.labels(), rhs.labels())),
                Err(e) => e == ArithmeticError::Overflow && !(all_fit(map_add(self@, rhs@))
                    && all_fit(map_add(self.labels(), rhs.labels()))),
            },
    {
        let main = self.main.add(rhs.main)?;
        let annotations = self.annotations.add(rhs.annotations)?;
        Ok(Self { main, annotations })
    }

    /// The difference of two sums, labels included. Fails if a coefficient or
    /// a label count leaves the range of the coefficient type.
    pub fn sub(self, rhs: Self) -> (r: Result<Self, ArithmeticError>)
        requires
            self.wf(),
            rhs.wf(),
        ensures
            match r {
                Ok(p) => p.wf() && p@ == map_sub(self@, rhs@) && p.labels() == map_sub(
                    self.labels(),
                    rhs.labels(),
                ) && all_fit(map_sub(self@, rhs@)) && all_fit(map_sub(self.labels(), rhs.labels())),
                Err(e) => e == ArithmeticError::Overflow && !(all_fit(map_sub(self@, rhs@))
                    && all_fit(map_sub(self.labels(), rhs.labels()))),
            },
    {
        let main = self.main.sub(rhs.main)?;
        let annotations = self.annotations.sub(rhs.annotations)?;
        Ok(Self { main, annotations })
    }

    /// Whether the two sums are the same, labels included.
    pub fn equals(&self, other: &Self) -> (r: bool)
        ensures
            r == (self.terms() == other.terms() && self.label_terms() == other.label_terms()),
            self.wf() && other.wf() ==> r == (self@ == other@ && self.labels() == other.labels()),
    {
        self.main.equals(&other.main) && self.annotations.equals(&other.annotations)
    }
}

/// What a checked sum came to: the sum, or an overflow.
pub open spec fn sum_outcome(o: Option<SumMap>) -> Result<SumMap, ArithmeticError> {
    match o {
        Some(m) => Ok(m),
        None => Err(ArithmeticError::Overflow),
    }
}

/// The model of what an operation on sums returned.
pub open spec fn basic_view<M: LinearMonom>(r: Result<BasicLinear<M>, ArithmeticError>) -> Result<
    SumMap,
    ArithmeticError,
> {
    match r {
        Ok(p) => Ok(p@),
        Err(e) => Err(e),
    }
}

/// The model of what an operation on sums returned.
pub open spec fn result_view<M: LinearMonom>(r: Result<Linear<M>, ArithmeticError>) -> Result<
    SumMap,
    ArithmeticError,
> {
    match r {
        Ok(p) => Ok(p@),
        Err(e) => Err(e),
    }
}

/// The labels of what an operation on sums returned.
pub open spec fn result_labels<M: LinearMonom>(r: Result<Linear<M>, ArithmeticError>) -> Result<
    SumMap,
    ArithmeticError,
> {
    match r {
        Ok(p) => Ok(p.labels()),
        Err(e) => Err(e),
    }
}

/// `imgs` holds, for each stored monomial in order, a value that `f` may
/// return for it.
pub open spec fn mapped_by<M, N, F: Fn(M) -> N>(f: F, entries: Seq<(M, Coeff)>, imgs: Seq<N>) -> bool {
    imgs.len() == entries.len() && forall|i: int|
        0 <= i < entries.len() ==> f.ensures((entries[i].0,), #[trigger] imgs[i])
}

/// The terms of a sum with each monomial exchanged for its image.
pub open spec fn image_terms<N: LinearMonom>(imgs: Seq<N>, t: TermSeq) -> TermSeq {
    Seq::new(t.len(), |i: int| (imgs[i].key(), t[i].1))
}

/// The sum of the parts, each multiplied by its coefficient, added up part
/// by part in checked arithmetic.
pub open spec fn expand_sums(parts: Seq<SumMap>, t: TermSeq) -> Option<SumMap>
    decreases parts.len(),
{
    if parts.len() == 0 {
        Some(Map::empty())
    } else {
        match expand_sums(parts.drop_last(), t) {
            None => None,
            Some(acc) => expand_step(acc, parts.last(), t[parts.len() - 1].1),
        }
    }
}

/// Once the sum has failed on a beginning of the list of terms, it fails on the list.
pub proof fn lemma_accumulate_none(acc: SumMap, t: TermSeq, i: int)
    requires
        0 <= i <= t.len(),
        accumulate(acc, t.take(i)) is None,
    ensures
        accumulate(acc, t) is None,
    decreases t.len() - i,
{
    if i < t.len() {
        assert(t.take(i + 1).drop_last() =~= t.take(i));
        lemma_accumulate_none(acc, t, i + 1);
    } else {
        assert(t.take(i) =~= t);
    }
}

/// Once the expansion has failed on a beginning of the list of parts, it
/// fails on the list.
pub proof fn lemma_expand_sums_none(parts: Seq<SumMap>, t: TermSeq, i: int)
    requires
        0 <= i <= parts.len(),
        expand_sums(parts.take(i), t) is None,
    ensures
        expand_sums(parts, t) is None,
    decreases parts.len() - i,
{
    if i < parts.len() {
        assert(parts.take(i + 1).drop_last() =~= parts.take(i));
        lemma_expand_sums_none(parts, t, i + 1);
    } else {
        assert(parts.take(i) =~= parts);
    }
}

/// The main sums of a sequence of sums.
pub open spec fn views_of<N: LinearMonom>(outs: Seq<Linear<N>>) -> Seq<SumMap> {
    Seq::new(outs.len(), |i: int| outs[i]@)
}

/// The label sums of a sequence of sums.
pub open spec fn labels_of<N: LinearMonom>(outs: Seq<Linear<N>>) -> Seq<SumMap> {
    Seq::new(outs.len(), |i: int| outs[i].labels())
}

impl<M: LinearMonom> BasicLinear<M> {
    /// The sum with each monomial exchanged for its image under `f`. Terms
    /// whose images coincide are added up, in increasing order of the
    /// monomials they come from.
    pub fn map<N: LinearMonom, F: Fn(M) -> N>(self, f: F) -> (r: Result<
        BasicLinear<N>,
        ArithmeticError,
    >)
        requires
            self.wf(),
            forall|i: int| 0 <= i < self.entries().len() ==> f.requires((#[trigger] self.entries()[i].0,)),
        ensures
            r is Ok ==> r->Ok_0.wf(),
            exists|imgs: Seq<N>| #[trigger]
                mapped_by(f, self.entries(), imgs) && basic_view(r) == sum_outcome(
                    accumulate(Map::empty(), image_terms(imgs, self.terms())),
                ),
    {
        let ghost t = self.terms();
        let ghost es = self.entries();
        let mut items = self.into_iter();
        let mut stack: Vec<(N, Coeff)> = Vec::new();
        let ghost n = items@.len() as int;
        // The images, from the last monomial to the first.
        loop
            invariant
                items@.len() <= n,
                n == es.len(),
                items@ == es.take(items@.len() as int),
                stack@.len() == n - items@.len(),
                forall|i: int| 0 <= i < es.len() ==> f.requires((#[trigger] es[i].0,)),
                forall|j: int| 0 <= j < stack@.len() ==> f.ensures((es[n - 1 - j].0,), (#[trigger] stack@[j]).0)
                    && stack@[j].1 == es[n - 1 - j].1,
            ensures
                stack@.len() == n,
                forall|j: int| 0 <= j < n ==> f.ensures((es[n - 1 - j].0,), (#[trigger] stack@[j]).0)
                    && stack@[j].1 == es[n - 1 - j].1,
            decreases items@.len(),
        {
            let ghost k = items@.len() as int;
            match items.pop() {
                None => {
                    break ;
                },
                Some(item) => {
                    let (monom, c) = item;
                    assert(es.take(k)[k - 1] == es[k - 1]);
                    assert(items@ =~= es.take(k - 1));
                    let img = f(monom);
                    stack.push((img, c));
                },
            }
        }
        let ghost imgs = Seq::new(n as nat, |i: int| stack@[n - 1 - i].0);
        let ghost it = image_terms(imgs, t);
        proof {
            assert(mapped_by(f, es, imgs));
            assert(it.take(0) =~= Seq::<(Seq<int>, int)>::empty());
            assert(t.len() == n);
        }
        let mut ret = BasicLinear::<N>::zero();
        loop
            invariant
                stack@.len() <= n,
                n == t.len(),
                t == term_list(es),
                it == image_terms(imgs, t),
                imgs.len() == n,
                forall|j: int| 0 <= j < stack@.len() ==> (#[trigger] stack@[j]).0 == imgs[n - 1 - j] && stack@[j].1
                    == es[n - 1 - j].1,
                ret.wf(),
                accumulate(Map::empty(), it.take(n - stack@.len())) == Some(ret@),
                mapped_by(f, es, imgs),
                es == self.entries(),
                t == self.terms(),
            ensures
                ret.wf(),
                accumulate(Map::empty(), it) == Some(ret@),
            decreases stack@.len(),
        {
            let ghost k = stack@.len() as int;
            let ghost i = n - k;
            match stack.pop() {
                None => {
                    assert(it.take(n) =~= it);
                    break ;
                },
                Some(item) => {
                    let (img, c) = item;
                    proof {
                        assert(it.take(i + 1).drop_last() =~= it.take(i));
                        assert(it.take(i + 1).last() == it[i]);
                        assert(it[i] == (imgs[i].key(), t[i].1));
                        assert(t[i].1 == es[i].1);
                    }
                    match ret.add_to(img, c) {
                        Err(e) => {
                            proof {
                                lemma_accumulate_none(Map::empty(), it, i + 1);
                            }
                            return Err(ArithmeticError::Overflow);
                        },
                        Ok(_) => {},
                    }
                },
            }
        }
        Ok(ret)
    }
}

impl<M: LinearMonom> Linear<M> {
    /// The sum with each monomial exchanged for its image under `f`. Terms
    /// whose images coincide are added up, in increasing order of the
    /// monomials they come from. The labels are dropped.
    pub fn map<N: LinearMonom, F: Fn(M) -> N>(self, f: F) -> (r: Result<Linear<N>, ArithmeticError>)
        requires
            self.wf(),
            forall|i: int| 0 <= i < self.entries().len() ==> f.requires((#[trigger] self.entries()[i].0,)),
        ensures
            r is Ok ==> r->Ok_0.wf() && r->Ok_0.labels() == Map::<Seq<int>, int>::empty(),
            exists|imgs: Seq<N>| #[trigger]
                mapped_by(f, self.entries(), imgs) && result_view(r) == sum_outcome(
                    accumulate(Map::empty(), image_terms(imgs, self.terms())),
                ),
    {
        let ghost es = self.main.entries();
        let ghost t = self.main.terms();
        assert forall|i: int| 0 <= i < self.main.entries().len() implies f.requires((#[trigger] self.main.entries()[i].0,)) by {
            assert(self.entries()[i].0 == self.main.entries()[i].0);
            assert(f.requires((self.entries()[i].0,)));
        }
        let res = self.main.map(f);
        let ghost imgs = choose|imgs: Seq<N>| #[trigger]
            mapped_by(f, es, imgs) && basic_view(res) == sum_outcome(
                accumulate(Map::empty(), image_terms(imgs, t)),
            );
        let r = match res {
            Ok(main) => Ok(Linear { main, annotations: BasicLinear::zero() }),
            Err(e) => Err(e),
        };
        assert(mapped_by(f, self.entries(), imgs) && result_view(r) == sum_outcome(
            accumulate(Map::empty(), image_terms(imgs, self.terms())),
        ));
        r
    }

    /// The same sum with each label exchanged for its image under `f`.
    /// Labels whose images coincide are added up, in increasing order of the
    /// labels they come from.
    pub fn map_annotations<F: Fn(String) -> String>(self, f: F) -> (r: Result<Self, ArithmeticError>)
        requires
            self.wf(),
            forall|s: String| #[trigger] f.requires((s,)),
        ensures
            r is Ok ==> r->Ok_0.wf() && r->Ok_0@ == self@ && r->Ok_0.terms() == self.terms(),
            exists|imgs: Seq<String>| #[trigger]
                mapped_by(f, self.label_entries(), imgs) && result_labels(r) == sum_outcome(
                    accumulate(Map::empty(), image_terms(imgs, self.label_terms())),
                ),
    {
        let ghost es = self.annotations.entries();
        let ghost t = self.annotations.terms();
        let res = self.annotations.map(f);
        let ghost imgs = choose|imgs: Seq<String>| #[trigger]
            mapped_by(f, es, imgs) && basic_view(res) == sum_outcome(
                accumulate(Map::empty(), image_terms(imgs, t)),
            );
        let r = match res {
            Ok(annotations) => Ok(Linear { main: self.main, annotations }),
            Err(e) => Err(e),
        };
        assert(mapped_by(f, self.label_entries(), imgs) && result_labels(r) == sum_outcome(
            accumulate(Map::empty(), image_terms(imgs, self.label_terms())),
        ));
        r
    }

    /// The sum of the images of the monomials under `f`, each multiplied by
    /// the coefficient of its monomial, added up in increasing order of
    /// monomial. The labels of the images are added up in the same way; the
    /// labels of this sum are dropped.
    pub fn map_expanding<N: LinearMonom, F: Fn(M) -> Linear<N>>(self, f: F) -> (r: Result<
        Linear<N>,
        ArithmeticError,
    >)
        requires
            self.wf(),
            forall|i: int| 0 <= i < self.entries().len() ==> f.requires((#[trigger] self.entries()[i].0,)),
            forall|m: M, y: Linear<N>| #[trigger] f.ensures((m,), y) ==> y.wf(),
        ensures
            r is Ok ==> r->Ok_0.wf(),
            exists|outs: Seq<Linear<N>>| #[trigger]
                mapped_by(f, self.entries(), outs) && match (
                    expand_sums(views_of(outs), self.terms()),
                    expand_sums(labels_of(outs), self.terms()),
                ) {
                    (Some(m), Some(l)) => r is Ok && r->Ok_0@ == m && r->Ok_0.labels() == l,
                    _ => r is Err && r->Err_0 == ArithmeticError::Overflow,
                },
    {
        let ghost t = self.terms();
        let ghost es = self.entries();
        proof {
            self.lemma_view();
        }
        let mut items = self.into_iter();
        let mut stack: Vec<(Linear<N>, Coeff)> = Vec::new();
        let ghost n = items@.len() as int;
        loop
            invariant
                items@.len() <= n,
                n == es.len(),
                items@ == es.take(items@.len() as int),
                stack@.len() == n - items@.len(),
                forall|i: int| 0 <= i < es.len() ==> f.requires((#[trigger] es[i].0,)),
                forall|m: M, y: Linear<N>| #[trigger] f.ensures((m,), y) ==> y.wf(),
                forall|j: int| 0 <= j < stack@.len() ==> f.ensures((es[n - 1 - j].0,), (#[trigger] stack@[j]).0)
                    && stack@[j].1 == es[n - 1 - j].1 && stack@[j].0.wf(),
            ensures
                stack@.len() == n,
                forall|j: int| 0 <= j < n ==> f.ensures((es[n - 1 - j].0,), (#[trigger] stack@[j]).0)
                    && stack@[j].1 == es[n - 1 - j].1 && stack@[j].0.wf(),
            decreases items@.len(),
        {
            let ghost k = items@.len() as int;
            match items.pop() {
                None => {
                    break ;
                },
                Some(item) => {
                    let (monom, c) = item;
                    assert(es.take(k)[k - 1] == es[k - 1]);
                    assert(items@ =~= es.take(k - 1));
                    let out = f(monom);
                    stack.push((out, c));
                },
            }
        }
        let ghost outs = Seq::new(n as nat, |i: int| stack@[n - 1 - i].0);
        let ghost vs = views_of(outs);
        let ghost ls = labels_of(outs);
        proof {
            assert(mapped_by(f, es, outs));
            assert(vs.take(0) =~= Seq::<SumMap>::empty());
            assert(ls.take(0) =~= Seq::<SumMap>::empty());
            assert(t.len() == n);
        }
        let mut ret = Linear::<N>::zero();
        loop
            invariant
                stack@.len() <= n,
                n == t.len(),
                t == term_list(es),
                outs.len() == n,
                vs == views_of(outs),
                ls == labels_of(outs),
                forall|j: int| 0 <= j < stack@.len() ==> (#[trigger] stack@[j]).0 == outs[n - 1 - j] && stack@[j].1
                    == es[n - 1 - j].1 && stack@[j].0.wf(),
                ret.wf(),
                expand_sums(vs.take(n - stack@.len()), t) == Some(ret@),
                expand_sums(ls.take(n - stack@.len()), t) == Some(ret.labels()),
                mapped_by(f, es, outs),
                es == self.entries(),
                t == self.terms(),
            ensures
                ret.wf(),
                expand_sums(vs, t) == Some(ret@),
                expand_sums(ls, t) == Some(ret.labels()),
            decreases stack@.len(),
        {
            let ghost k = stack@.len() as int;
            let ghost i = n - k;
            match stack.pop() {
                None => {
                    assert(vs.take(n) =~= vs);
                    assert(ls.take(n) =~= ls);
                    break ;
                },
                Some(item) => {
                    let (out, c) = item;
                    proof {
                        assert(vs.take(i + 1).drop_last() =~= vs.take(i));
                        assert(ls.take(i + 1).drop_last() =~= ls.take(i));
                        assert(vs.take(i + 1).last() == out@);
                        assert(ls.take(i + 1).last() == out.labels());
                        assert(t[i].1 == es[i].1);
                        out.lemma_view();
                    }
                    let step = match out.mul(c) {
                        Err(e) => Err(e),
                        Ok(scaled) => ret.add(scaled),
                    };
                    match step {
                        Err(e) => {
                            proof {
                                if expand_sums(vs.take(i + 1), t) is None {
                                    lemma_expand_sums_none(vs, t, i + 1);
                                } else {
                                    lemma_expand_sums_none(ls, t, i + 1);
                                }
                            }
                            return Err(ArithmeticError::Overflow);
                        },
                        Ok(sum) => {
                            ret = sum;
                        },
                    }
                },
            }
        }
        Ok(ret)
    }
}

/// Taking back what a term has in a sum removes the term: no zero
/// coefficient is ever stored.
pub proof fn lemma_cancel_removes(m: SumMap, k: Word)
    requires
        zero_free(m),
    ensures
        !add_term(m, k, -coeff(m, k)).contains_key(k),
        zero_free(add_term(m, k, -coeff(m, k))),
        forall|v: int| zero_free(#[trigger] add_term(m, k, v)),
{
}

/// The text of a coefficient at the head of a line: a sign alone for 1 and
/// -1, and else the number with its sign.
pub open spec fn coeff_text(c: int) -> Seq<char> {
    if c == 1 {
        " +"@
    } else if c == -1 {
        " -"@
    } else if c == 0 {
        " 0"@
    } else if c > 0 {
        "+"@ + decimal_digits(c as nat)
    } else {
        decimal_text(c)
    }
}

/// The text of a coefficient at the head of a line.
pub fn coeff_to_string(coeff: Coeff) -> (r: String)
    ensures
        r@ == coeff_text(coeff as int),
{
    if coeff == 1 {
        String::from_str(" +")
    } else if coeff == -1 {
        String::from_str(" -")
    } else if coeff == 0 {
        String::from_str(" 0")
    } else if coeff > 0 {
        let mut r = String::from_str("+");
        r.append(decimal(coeff).as_str());
        r
    } else {
        decimal(coeff)
    }
}

/// The lines of the first `i` terms: on each line the coefficient, a
/// space, and the text of the monomial.
pub open spec fn lines_of(t: TermSeq, texts: Seq<Seq<char>>, i: nat) -> Seq<char>
    decreases i,
{
    if i == 0 || i > t.len() || i > texts.len() {
        Seq::empty()
    } else {
        lines_of(t, texts, (i - 1) as nat) + coeff_text(t[i - 1].1) + " "@ + texts[i - 1] + "\n"@
    }
}

/// `texts` holds, for each stored monomial in order, a text that the
/// printer may give for it.
pub open spec fn printed_by<M, F: Fn(&M) -> String>(f: F, entries: Seq<(M, Coeff)>, texts: Seq<Seq<char>>) -> bool {
    texts.len() == entries.len() && forall|i: int|
        0 <= i < entries.len() ==> #[trigger] prints(f, entries[i].0, texts[i])
}

/// `text` is a text that the printer may give for the monomial.
pub open spec fn prints<M, F: Fn(&M) -> String>(f: F, m: M, text: Seq<char>) -> bool {
    exists|s: String| #[trigger] f.ensures((&m,), s) && s@ == text
}

/// The lines stay the same when more texts follow.
proof fn lemma_lines_prefix(t: TermSeq, a: Seq<Seq<char>>, b: Seq<Seq<char>>, i: nat)
    requires
        i <= a.len(),
        i <= b.len(),
        forall|j: int| 0 <= j < i ==> a[j] == b[j],
    ensures
        lines_of(t, a, i) == lines_of(t, b, i),
    decreases i,
{
    if i > 0 && i <= t.len() {
        lemma_lines_prefix(t, a, b, (i - 1) as nat);
    }
}

/// The texts of the labels of a list of entries.
pub open spec fn label_texts(entries: Seq<(String, Coeff)>) -> Seq<Seq<char>> {
    Seq::new(entries.len(), |i: int| entries[i].0@)
}

impl<M: LinearMonom> BasicLinear<M> {
    /// The sum as text: a line for each term, in increasing order of monomial.
    pub fn render<F: Fn(&M) -> String>(&self, monom_printer: F) -> (r: String)
        requires
            forall|i: int| 0 <= i < self.entries().len() ==> monom_printer.requires((&#[trigger] self.entries()[i].0,)),
        ensures
            exists|texts: Seq<Seq<char>>| #[trigger]
                printed_by(monom_printer, self.entries(), texts) && r@ == lines_of(
                    self.terms(),
                    texts,
                    self.terms().len(),
                ),
    {
        let ghost t = self.terms();
        let ghost es = self.entries();
        let mut r = String::new();
        let ghost mut texts: Seq<Seq<char>> = Seq::empty();
        let mut i: usize = 0;
        while i < self.data.len()
            invariant
                i <= self.data@.len(),
                t == self.terms(),
                es == self.entries(),
                es == self.data@,
                t.len() == es.len(),
                texts.len() == i,
                forall|j: int| 0 <= j < i ==> #[trigger] prints(monom_printer, es[j].0, texts[j]),
                forall|j: int| 0 <= j < es.len() ==> monom_printer.requires((&#[trigger] es[j].0,)),
                r@ == lines_of(t, texts, i as nat),
            decreases self.data@.len() - i,
        {
            let ghost before = texts;
            let head = coeff_to_string(self.data[i].1);
            assert(monom_printer.requires((&es[i as int].0,)));
            let name = monom_printer(&self.data[i].0);
            r.append(head.as_str());
            r.append(" ");
            r.append(name.as_str());
            r.append("\n");
            proof {
                texts = texts.push(name@);
                lemma_lines_prefix(t, before, texts, i as nat);
                assert(t[i as int].1 == self.data@[i as int].1);
                assert(monom_printer.ensures((&es[i as int].0,), name) && name@ == texts[i as int]);
                assert forall|j: int| 0 <= j < i + 1 implies #[trigger] prints(monom_printer, es[j].0, texts[j]) by {
                    if j < i {
                        assert(prints(monom_printer, es[j].0, before[j]));
                    }
                }
            }
            i += 1;
        }
        proof {
            assert(printed_by(monom_printer, es, texts));
        }
        r
    }
}

impl BasicLinear<String> {
    /// The sum of labels as text: a line for each label, in increasing order.
    pub fn render_labels(&self) -> (r: String)
        ensures
            r@ == lines_of(self.terms(), label_texts(self.entries()), self.terms().len()),
    {
        let ghost t = self.terms();
        let ghost es = self.entries();
        let mut r = String::new();
        let mut i: usize = 0;
        while i < self.data.len()
            invariant
                i <= self.data@.len(),
                t == self.terms(),
                es == self.data@,
                t.len() == es.len(),
                r@ == lines_of(t, label_texts(es), i as nat),
            decreases self.data@.len() - i,
        {
            let head = coeff_to_string(self.data[i].1);
            r.append(head.as_str());
            r.append(" ");
            r.append(self.data[i].0.as_str());
            r.append("\n");
            proof {
                assert(t[i as int].1 == self.data@[i as int].1);
                assert(label_texts(es)[i as int] == self.data@[i as int].0@);
            }
            i += 1;
        }
        r
    }
}

impl<M: LinearMonom> Linear<M> {
    /// The sum as text: a line for each term, in increasing order of
    /// monomial; then, if the sum has labels, a line of three equals signs
    /// and a line for each label.
    pub fn render<F: Fn(&M) -> String>(&self, monom_printer: F) -> (r: String)
        requires
            forall|i: int| 0 <= i < self.entries().len() ==> monom_printer.requires((&#[trigger] self.entries()[i].0,)),
        ensures
            exists|texts: Seq<Seq<char>>| #[trigger]
                printed_by(monom_printer, self.entries(), texts) && r@ == lines_of(
                    self.terms(),
                    texts,
                    self.terms().len(),
                ) + if self.label_terms().len() == 0 {
                    Seq::<char>::empty()
                } else {
                    "===\n"@ + lines_of(
                        self.label_terms(),
                        label_texts(self.label_entries()),
                        self.label_terms().len(),
                    )
                },
    {
        assert forall|i: int| 0 <= i < self.main.entries().len() implies monom_printer.requires((&#[trigger] self.main.entries()[i].0,)) by {
            assert(self.entries()[i].0 == self.main.entries()[i].0);
            assert(monom_printer.requires((&self.entries()[i].0,)));
        }
        let mut r = self.main.render(monom_printer);
        let ghost head = r@;
        let ghost texts = choose|texts: Seq<Seq<char>>| #[trigger]
            printed_by(monom_printer, self.main.entries(), texts) && head == lines_of(
                self.main.terms(),
                texts,
                self.main.terms().len(),
            );
        if self.annotations.len() != 0 {
            r.append("===\n");
            r.append(self.annotations.render_labels().as_str());
        }
        proof {
            assert(printed_by(monom_printer, self.entries(), texts));
            assert(r@ =~= head + if self.label_terms().len() == 0 {
                Seq::<char>::empty()
            } else {
                "===\n"@ + lines_of(
                    self.label_terms(),
                    label_texts(self.label_entries()),
                    self.label_terms().len(),
                )
            });
        }
        r
    }
}

impl<M: LinearMonom> PartialEq for BasicLinear<M> {
    fn eq(&self, other: &Self) -> (r: bool) {
        self.equals(other)
    }
}

impl<M: LinearMonom> vstd::std_specs::cmp::PartialEqSpecImpl for BasicLinear<M> {
    open spec fn obeys_eq_spec() -> bool {
        true
    }

    open spec fn eq_spec(&self, other: &Self) -> bool {
        self.terms() == other.terms()
    }
}

impl<M: LinearMonom> PartialEq for Linear<M> {
    fn eq(&self, other: &Self) -> (r: bool) {
        self.equals(other)
    }
}

impl<M: LinearMonom> vstd::std_specs::cmp::PartialEqSpecImpl for Linear<M> {
    open spec fn obeys_eq_spec() -> bool {
        true
    }

    open spec fn eq_spec(&self, other: &Self) -> bool {
        self.terms() == other.terms() && self.label_terms() == other.label_terms()
    }
}

impl ArithmeticError {
    /// What went wrong, in words.
    pub open spec fn message_text(self) -> Seq<char> {
        match self {
            ArithmeticError::Overflow => "A coefficient is out of the range of the coefficient type"@,
            ArithmeticError::NotDivisible => "A coefficient is not divisible by the denominator"@,
            ArithmeticError::NotUnit => "The shuffle of the Lyndon factors of a word does not hold the word once"@,
            ArithmeticError::NotSmaller => "A word that replaces another is not smaller than it"@,
        }
    }

    /// What went wrong, in words.
    pub fn message(&self) -> (r: String)
        ensures
            r@ == self.message_text(),
    {
        match self {
            ArithmeticError::Overflow => "A coefficient is out of the range of the coefficient type".to_owned(),
            ArithmeticError::NotDivisible => "A coefficient is not divisible by the denominator".to_owned(),
            ArithmeticError::NotUnit => "The shuffle of the Lyndon factors of a word does not hold the word once".to_owned(),
            ArithmeticError::NotSmaller => "A word that replaces another is not smaller than it".to_owned(),
        }
    }
}

} // verus!
