//! Numbering of distinct keys in the order in which they are first seen.

use vstd::prelude::*;
use crate::base::word_order::{WordOrder, lemma_compare_equal};
use crate::math::linear::LinearMonom;

verus! {

/// The position at which `k` first occurs in a list of keys, or -1.
pub open spec fn index_in(keys: Seq<Seq<int>>, k: Seq<int>) -> int
    decreases keys.len(),
{
    if keys.len() == 0 {
        -1
    } else {
        let before = index_in(keys.drop_last(), k);
        if before >= 0 {
            before
        } else if keys.last() == k {
            keys.len() - 1
        } else {
            -1
        }
    }
}

/// What `index_in` finds: the first position that holds the key.
pub proof fn lemma_index_in(keys: Seq<Seq<int>>, k: Seq<int>)
    ensures
        -1 <= index_in(keys, k) < keys.len(),
        index_in(keys, k) >= 0 ==> keys[index_in(keys, k)] == k,
        forall|i: int| 0 <= i < keys.len() && (index_in(keys, k) < 0 || i < index_in(keys, k)) ==> #[trigger] keys[i] != k,
    decreases keys.len(),
{
    if keys.len() > 0 {
        lemma_index_in(keys.drop_last(), k);
        assert forall|i: int| 0 <= i < keys.len() && (index_in(keys, k) < 0 || i < index_in(keys, k)) implies #[trigger] keys[i] != k by {
            if i < keys.len() - 1 {
                assert(keys.drop_last()[i] == keys[i]);
            }
        }
    }
}

/// A position that holds the key, with no earlier one that does, is what
/// `index_in` finds.
pub proof fn lemma_index_in_is(keys: Seq<Seq<int>>, k: Seq<int>, i: int)
    requires
        0 <= i < keys.len(),
        keys[i] == k,
        forall|j: int| 0 <= j < i ==> #[trigger] keys[j] != k,
    ensures
        index_in(keys, k) == i,
{
    lemma_index_in(keys, k);
}

/// Gives each distinct key a number, from 0 up in the order in which the
/// keys are first seen.
pub struct Enumerator<T: LinearMonom> {
    indices: Vec<T>,
}

impl<T: LinearMonom> Enumerator<T> {
    /// The keys seen so far, each at the position that is its number.
    pub closed spec fn keys(&self) -> Seq<Seq<int>> {
        Seq::new(self.indices@.len(), |i: int| self.indices@[i].key())
    }

    /// An enumerator that has seen no key.
    pub fn new() -> (r: Self)
        ensures
            r.keys() == Seq::<Seq<int>>::empty(),
    {
        let r = Enumerator { indices: Vec::new() };
        assert(r.keys() =~= Seq::<Seq<int>>::empty());
        r
    }

    /// The number of the key, if it was seen.
    pub fn const_index(&self, key: &T) -> (r: Option<usize>)
        ensures
            match r {
                Some(i) => index_in(self.keys(), key.key()) == i,
                None => index_in(self.keys(), key.key()) < 0,
            },
    {
        let ghost ks = self.keys();
        let ghost k = key.key();
        let mut i: usize = 0;
        while i < self.indices.len()
            invariant
                i <= self.indices@.len(),
                ks == self.keys(),
                k == key.key(),
                forall|j: int| 0 <= j < i ==> #[trigger] ks[j] != k,
            decreases self.indices@.len() - i,
        {
            let o = self.indices[i].compare(key);
            proof {
                lemma_compare_equal(ks[i as int], k);
            }
            match o {
                WordOrder::Equal => {
                    proof {
                        lemma_index_in_is(ks, k, i as int);
                    }
                    return Some(i);
                },
                _ => {},
            }
            i += 1;
        }
        proof {
            lemma_index_in(ks, k);
        }
        None
    }

    /// The number of the key. A key that was not seen before gets the next number.
    pub fn index(&mut self, key: T) -> (r: usize)
        ensures
            index_in(old(self).keys(), key.key()) >= 0 ==> r == index_in(old(self).keys(), key.key())
                && final(self).keys() == old(self).keys(),
            index_in(old(self).keys(), key.key()) < 0 ==> r == old(self).keys().len() && final(self).keys() == old(self).keys().push(key.key()),
            r < final(self).keys().len(),
            final(self).keys()[r as int] == key.key(),
    {
        proof {
            lemma_index_in(self.keys(), key.key());
        }
        match self.const_index(&key) {
            Some(i) => i,
            None => {
                let new_index = self.indices.len();
                self.indices.push(key);
                assert(self.keys() =~= old(self).keys().push(key.key()));
                new_index
            },
        }
    }

    /// The number of keys seen.
    pub fn len(&self) -> (n: usize)
        ensures
            n == self.keys().len(),
    {
        self.indices.len()
    }
}

} // verus!
