//! A short vector of 16-bit codes that stays on the stack while it is short.
//!
//! The monomials of the Delta and Gamma algebras keep their atoms here, each
//! atom as a 16-bit code. The vector itself is a `SmallVec` of the crate
//! `smallvec`; what the functions of this file say of it is taken from that
//! crate's source and is not checked by Verus.

use vstd::prelude::*;
use smallvec::SmallVec;

verus! {

/// A vector of 16-bit codes, kept in a `smallvec::SmallVec<[u16; 8]>`.
#[verifier::external_body]
#[derive(Debug, PartialEq, Eq, PartialOrd, Ord, Hash)]
pub struct CodeStore {
    inner: SmallVec<[u16; 8]>,
}

/// The codes that a store holds, in order.
pub uninterp spec fn stored(v: CodeStore) -> Seq<u16>;

/// `SmallVec::new`: the result holds nothing.
#[verifier::external_body]
pub(crate) fn store_new() -> (r: CodeStore)
    ensures
        stored(r) == Seq::<u16>::empty(),
{
    CodeStore { inner: SmallVec::new() }
}

/// `SmallVec::len`: the number of codes held.
#[verifier::external_body]
pub(crate) fn store_len(v: &CodeStore) -> (n: usize)
    ensures
        n == stored(*v).len(),
{
    v.inner.len()
}

/// Indexing a `SmallVec`, which indexes its slice: the code at position `i`.
/// An index past the end would panic, so it is left out.
#[verifier::external_body]
pub(crate) fn store_get(v: &CodeStore, i: usize) -> (x: u16)
    requires
        i < stored(*v).len(),
    ensures
        x == stored(*v)[i as int],
{
    v.inner[i]
}

/// `SmallVec::push`: the code is appended, what was held stays. It could
/// fail only on a store that already fills a quarter of the address space;
/// like the contract that vstd gives `Vec::push`, this one does not speak of
/// running out of memory.
#[verifier::external_body]
pub(crate) fn store_push(v: &mut CodeStore, x: u16)
    ensures
        stored(*final(v)) == stored(*old(v)).push(x),
{
    v.inner.push(x)
}

/// `SmallVec::pop`: the last code is removed and returned; `None` and no
/// change where nothing is held.
#[verifier::external_body]
pub(crate) fn store_pop(v: &mut CodeStore) -> (x: Option<u16>)
    ensures
        stored(*old(v)).len() == 0 ==> x is None && stored(*final(v)) == stored(*old(v)),
        stored(*old(v)).len() > 0 ==> x == Some(stored(*old(v)).last()) && stored(*final(v))
            == stored(*old(v)).drop_last(),
{
    v.inner.pop()
}

/// `SmallVec::reserve`: what is held stays. Where it has to grow, it rounds
/// the number of codes asked for up to a power of two and panics if that
/// many codes, of two bytes each, take more than `isize::MAX` bytes. A
/// request that could come to that is left out.
#[verifier::external_body]
pub(crate) fn store_reserve(v: &mut CodeStore, additional: usize)
    requires
        stored(*old(v)).len() + additional <= isize::MAX / 4,
    ensures
        stored(*final(v)) == stored(*old(v)),
{
    v.inner.reserve(additional)
}

/// `SmallVec::reserve_exact`: what is held stays. Where it has to grow, it
/// panics if the number of codes asked for, of two bytes each, takes more
/// than `isize::MAX` bytes. A request that could come to that is left out.
#[verifier::external_body]
pub(crate) fn store_reserve_exact(v: &mut CodeStore, additional: usize)
    requires
        stored(*old(v)).len() + additional <= isize::MAX / 2,
    ensures
        stored(*final(v)) == stored(*old(v)),
{
    v.inner.reserve_exact(additional)
}

/// `Clone::clone` of a `SmallVec`, which copies its slice: the copy holds
/// the same codes.
#[verifier::external_body]
pub(crate) fn store_clone(v: &CodeStore) -> (r: CodeStore)
    ensures
        stored(r) == stored(*v),
{
    CodeStore { inner: v.inner.clone() }
}

} // verus!
