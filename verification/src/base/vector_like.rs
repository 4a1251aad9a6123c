//! Monomials that behave like vectors of atoms.

use vstd::prelude::*;
use vstd::layout::size_of;
use crate::base::word_order::{WordOrder, word_compare, agree_on,
    lemma_first_difference_is};
use crate::math::linear::{LinearMonom, MonomVectorizable};

verus! {

/// An atomic element of a word. Atoms are ordered, and told apart, by an
/// integer code.
pub trait Atom: Copy {
    /// The integer that stands for this atom in a monomial's key.
    spec fn code(self) -> int;

    /// Whether this atom comes strictly before `other`.
    fn precedes(self, other: Self) -> (r: bool)
        ensures
            r == (self.code() < other.code()),
    ;

    /// Whether the two atoms are the same atom.
    fn same_as(self, other: Self) -> (r: bool)
        ensures
            r == (self.code() == other.code()),
    ;
}

impl Atom for i32 {
    open spec fn code(self) -> int {
        self as int
    }

    fn precedes(self, other: Self) -> (r: bool) {
        self < other
    }

    fn same_as(self, other: Self) -> (r: bool) {
        self == other
    }
}

/// The codes of a sequence of atoms, position by position.
pub open spec fn codes<T: Atom>(s: Seq<T>) -> Seq<int> {
    Seq::new(s.len(), |i: int| s[i].code())
}

/// An object that behaves like a vector of atoms. Its key is the sequence of
/// the codes of its elements.
pub trait VectorLike<T: Atom>: LinearMonom {
    /// The empty vector.
    fn new() -> (r: Self)
        ensures
            r.key() == Seq::<int>::empty(),
    ;

    /// The number of elements.
    fn len(&self) -> (n: usize)
        ensures
            n == self.key().len(),
    ;

    /// The element at position `i`.
    fn at(&self, i: usize) -> (x: T)
        requires
            i < self.key().len(),
        ensures
            x.code() == self.key()[i as int],
    ;

    /// Removes the last element and returns it, or returns `None` if there is none.
    fn pop(&mut self) -> (x: Option<T>)
        ensures
            old(self).key().len() == 0 ==> x is None && final(self).key() == old(self).key(),
            old(self).key().len() > 0 ==> x is Some && x->0.code() == old(self).key().last()
                && final(self).key() == old(self).key().drop_last(),
    ;

    /// Appends an element.
    fn push(&mut self, value: T)
        ensures
            final(self).key() == old(self).key().push(value.code()),
    ;

    /// Whether `reserve` can be asked to make room for `total` elements,
    /// those already held included. It depends on how many bytes an element
    /// takes and on how the vector grows.
    spec fn can_reserve(total: int) -> bool;

    /// Whether `reserve_exact` can be asked to make room for `total`
    /// elements, those already held included.
    spec fn can_reserve_exact(total: int) -> bool;

    /// Makes room for `additional` more elements.
    fn reserve(&mut self, additional: usize)
        requires
            Self::can_reserve(old(self).key().len() + additional),
        ensures
            final(self).key() == old(self).key(),
    ;

    /// Makes room for exactly `additional` more elements.
    fn reserve_exact(&mut self, additional: usize)
        requires
            Self::can_reserve_exact(old(self).key().len() + additional),
        ensures
            final(self).key() == old(self).key(),
    ;

    /// The vector that holds the elements of a slice.
    fn from_slice(slice: &[T]) -> (r: Self)
        ensures
            r.key() == codes(slice@),
    ;
}

/// Whether `total` elements of type `T` can be counted by a `usize` and
/// take, `share` times over, no more than `isize::MAX` bytes.
pub open spec fn fits_in_memory<T>(total: int, share: int) -> bool {
    total <= usize::MAX && share * (total * size_of::<T>()) <= isize::MAX
}

/// `Vec::reserve_exact`: what is held stays. It panics where the new
/// capacity is more than `isize::MAX` bytes, or more than `usize::MAX`
/// elements, so such a request is left out.
#[verifier::external_body]
pub(crate) fn vec_reserve_exact<T>(v: &mut Vec<T>, additional: usize)
    requires
        old(v)@.len() + additional <= usize::MAX,
        (old(v)@.len() + additional) * size_of::<T>() <= isize::MAX,
    ensures
        final(v)@ == old(v)@,
{
    v.reserve_exact(additional)
}

/// Compares two vectors of atoms lexicographically by code.
pub fn compare_atoms<T: Atom>(a: &Vec<T>, b: &Vec<T>) -> (r: WordOrder)
    ensures
        r == word_compare(codes(a@), codes(b@)),
{
    let ghost ka = codes(a@);
    let ghost kb = codes(b@);
    let mut i: usize = 0;
    while i < a.len() && i < b.len()
        invariant
            i <= a.len(),
            i <= b.len(),
            ka == codes(a@),
            kb == codes(b@),
            agree_on(ka, kb, 0, i as int),
        decreases a.len() - i,
    {
        let x = a[i];
        let y = b[i];
        if x.precedes(y) {
            proof {
                lemma_first_difference_is(ka, kb, 0, i as int);
            }
            return WordOrder::Less;
        }
        if y.precedes(x) {
            proof {
                lemma_first_difference_is(ka, kb, 0, i as int);
            }
            return WordOrder::Greater;
        }
        i += 1;
    }
    proof {
        lemma_first_difference_is(ka, kb, 0, i as int);
    }
    if a.len() < b.len() {
        WordOrder::Less
    } else if a.len() == b.len() {
        WordOrder::Equal
    } else {
        WordOrder::Greater
    }
}

impl<T: Atom> LinearMonom for Vec<T> {
    open spec fn key(&self) -> Seq<int> {
        codes(self@)
    }

    fn compare(&self, other: &Self) -> (r: WordOrder) {
        compare_atoms(self, other)
    }

    fn duplicate(&self) -> (r: Self) {
        let mut r: Vec<T> = Vec::new();
        let mut i: usize = 0;
        while i < self.len()
            invariant
                i <= self.len(),
                r@ == self@.take(i as int),
            decreases self.len() - i,
        {
            r.push(self[i]);
            assert(self@.take(i as int).push(self@[i as int]) =~= self@.take(i + 1));
            i += 1;
        }
        assert(r@ =~= self@);
        r
    }
}

impl<T: Atom> VectorLike<T> for Vec<T> {
    fn new() -> (r: Self) {
        let r: Vec<T> = Vec::new();
        assert(codes(r@) =~= Seq::<int>::empty());
        r
    }

    fn len(&self) -> (n: usize) {
        Vec::len(self)
    }

    fn at(&self, i: usize) -> (x: T) {
        self[i]
    }

    fn pop(&mut self) -> (x: Option<T>) {
        let x = Vec::pop(self);
        proof {
            if old(self)@.len() > 0 {
                assert(codes(self@) =~= codes(old(self)@).drop_last());
            }
        }
        x
    }

    fn push(&mut self, value: T) {
        Vec::push(self, value);
        assert(codes(self@) =~= codes(old(self)@).push(value.code()));
    }

    /// A `Vec` may take more room than it is asked for, and no more than
    /// `isize::MAX` bytes in all: twice the elements asked for must fit.
    open spec fn can_reserve(total: int) -> bool {
        fits_in_memory::<T>(total, 2)
    }

    /// The elements asked for must fit into `isize::MAX` bytes.
    open spec fn can_reserve_exact(total: int) -> bool {
        fits_in_memory::<T>(total, 1)
    }

    fn reserve(&mut self, additional: usize) {
        Vec::reserve(self, additional);
    }

    fn reserve_exact(&mut self, additional: usize) {
        vec_reserve_exact(self, additional);
    }

    fn from_slice(slice: &[T]) -> (r: Self) {
        let mut r: Vec<T> = Vec::new();
        let mut i: usize = 0;
        while i < slice.len()
            invariant
                i <= slice.len(),
                r@ == slice@.take(i as int),
            decreases slice.len() - i,
        {
            r.push(slice[i]);
            assert(slice@.take(i as int).push(slice@[i as int]) =~= slice@.take(i + 1));
            i += 1;
        }
        assert(r@ =~= slice@);
        r
    }
}

impl<T: Atom> MonomVectorizable for Vec<T> {
    type Element = T;

    type AsVector = Self;

    fn to_vector(self) -> (r: Self) {
        self
    }

    fn from_vector(v: Self) -> (r: Self) {
        v
    }
}

} // verus!
