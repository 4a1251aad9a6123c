//! The Gamma algebra: sets of points, and their ordered products.
//!
//! A Gamma is a set of points out of the points 1 to 16. It is kept as 16
//! bits: the point `v` is bit `16 - v`, so that the bits read as a number
//! order the Gammas by their points from the smallest point up, a Gamma that
//! has the point coming after one that has it not.

use vstd::prelude::*;
use crate::base::small_store::{CodeStore, stored, store_new, store_len, store_get, store_push,
    store_pop, store_reserve, store_reserve_exact, store_clone};
use crate::base::vector_like::{Atom, VectorLike, codes};
use crate::base::word_order::WordOrder;
use crate::math::delta::{code_ints, compare_stores};
use crate::base::string_tools::{decimal, decimal_text, join_strings, join_spec, sorted_numbers,
    texts};
use crate::math::delta::{Delta, DeltaExpr, DeltaProduct};
use crate::math::linear::{ArithmeticError, Linear, LinearMonom, MonomVectorizable, TensorProduct,
    result_view, sum_outcome, mapped_by, image_terms, expand_sums, views_of, labels_of, term_list};
use crate::math::shuffle::sorted_terms;
use crate::math::terms::{single_map, SumMap, TermSeq, Word, accumulate, map_add,
    map_scale};
use crate::math::x::X;
use vstd::string::StringExecFns;

verus! {

/// The greatest point that a Gamma can hold.
pub const MAX_POINT: i32 = 16;

/// The bit that stands for the point `v`, for `v` from 1 to 16.
pub open spec fn point_mask(v: int) -> u16 {
    0x8000u16 >> ((v - 1) as u16)
}

/// The bits that stand for the points of a list.
pub open spec fn bitset_of(vs: Seq<i32>) -> u16
    decreases vs.len(),
{
    if vs.len() == 0 {
        0
    } else {
        bitset_of(vs.drop_last()) | point_mask(vs.last() as int)
    }
}

/// The points up to `upto` that the bits hold, in increasing order.
pub open spec fn point_list(bits: u16, upto: int) -> Seq<i32>
    decreases upto,
{
    if upto <= 0 {
        Seq::empty()
    } else if bits & point_mask(upto) != 0 {
        point_list(bits, upto - 1).push(upto as i32)
    } else {
        point_list(bits, upto - 1)
    }
}

/// Every point of the list is one of the points 1 to 16.
pub open spec fn points_in_range(vs: Seq<i32>) -> bool {
    forall|i: int| 0 <= i < vs.len() ==> 1 <= #[trigger] vs[i] <= 16
}

/// What setting one bit does to the test of another.
pub proof fn lemma_mask_set(b: u16, s: u16, t: u16)
    requires
        s < 16,
        t < 16,
    ensures
        (0x8000u16 >> s) != 0,
        ((0x8000u16 >> s) & (0x8000u16 >> t) != 0) == (s == t),
        ((b | (0x8000u16 >> s)) & (0x8000u16 >> t) != 0) == ((b & (0x8000u16 >> t) != 0) || s == t),
{
    assert((0x8000u16 >> s) != 0) by (bit_vector)
        requires
            s < 16,
    ;
    assert(((0x8000u16 >> s) & (0x8000u16 >> t) != 0) == (s == t)) by (bit_vector)
        requires
            s < 16,
            t < 16,
    ;
    assert(((b | (0x8000u16 >> s)) & (0x8000u16 >> t) != 0) == ((b & (0x8000u16 >> t) != 0) || s
        == t)) by (bit_vector)
        requires
            s < 16,
            t < 16,
    ;
}

/// How the test of a bit goes through the bitwise operations.
pub proof fn lemma_mask_ops(a: u16, b: u16, t: u16)
    requires
        t < 16,
    ensures
        ((a | b) & (0x8000u16 >> t) != 0) == ((a & (0x8000u16 >> t) != 0) || (b & (0x8000u16 >> t)
            != 0)),
        ((a & b) & (0x8000u16 >> t) != 0) == ((a & (0x8000u16 >> t) != 0) && (b & (0x8000u16 >> t)
            != 0)),
        0u16 & (0x8000u16 >> t) == 0,
{
    assert(((a | b) & (0x8000u16 >> t) != 0) == ((a & (0x8000u16 >> t) != 0) || (b & (0x8000u16
        >> t) != 0))) by (bit_vector)
        requires
            t < 16,
    ;
    assert(((a & b) & (0x8000u16 >> t) != 0) == ((a & (0x8000u16 >> t) != 0) && (b & (0x8000u16
        >> t) != 0))) by (bit_vector)
        requires
            t < 16,
    ;
    assert(0u16 & (0x8000u16 >> t) == 0) by (bit_vector);
}

/// Bits that are not all zero hold one of the 16 bits.
pub proof fn lemma_some_bit(x: u16) -> (t: u16)
    requires
        x != 0,
    ensures
        t < 16,
        x & (0x8000u16 >> t) != 0,
{
    assert(x != 0 ==> (x & (0x8000u16 >> 0u16) != 0 || x & (0x8000u16 >> 1u16) != 0 || x & (0x8000u16
        >> 2u16) != 0 || x & (0x8000u16 >> 3u16) != 0 || x & (0x8000u16 >> 4u16) != 0 || x & (
    0x8000u16 >> 5u16) != 0 || x & (0x8000u16 >> 6u16) != 0 || x & (0x8000u16 >> 7u16) != 0 || x & (
    0x8000u16 >> 8u16) != 0 || x & (0x8000u16 >> 9u16) != 0 || x & (0x8000u16 >> 10u16) != 0 || x
        & (0x8000u16 >> 11u16) != 0 || x & (0x8000u16 >> 12u16) != 0 || x & (0x8000u16 >> 13u16)
        != 0 || x & (0x8000u16 >> 14u16) != 0 || x & (0x8000u16 >> 15u16) != 0)) by (bit_vector);
    if x & (0x8000u16 >> 0u16) != 0 {
        0
    } else if x & (0x8000u16 >> 1u16) != 0 {
        1
    } else if x & (0x8000u16 >> 2u16) != 0 {
        2
    } else if x & (0x8000u16 >> 3u16) != 0 {
        3
    } else if x & (0x8000u16 >> 4u16) != 0 {
        4
    } else if x & (0x8000u16 >> 5u16) != 0 {
        5
    } else if x & (0x8000u16 >> 6u16) != 0 {
        6
    } else if x & (0x8000u16 >> 7u16) != 0 {
        7
    } else if x & (0x8000u16 >> 8u16) != 0 {
        8
    } else if x & (0x8000u16 >> 9u16) != 0 {
        9
    } else if x & (0x8000u16 >> 10u16) != 0 {
        10
    } else if x & (0x8000u16 >> 11u16) != 0 {
        11
    } else if x & (0x8000u16 >> 12u16) != 0 {
        12
    } else if x & (0x8000u16 >> 13u16) != 0 {
        13
    } else if x & (0x8000u16 >> 14u16) != 0 {
        14
    } else {
        15
    }
}

/// The bits of a list of points hold exactly the points of the list.
pub proof fn lemma_bitset_of(vs: Seq<i32>, v: int)
    requires
        points_in_range(vs),
        1 <= v <= 16,
    ensures
        (bitset_of(vs) & point_mask(v) != 0) == vs.contains(v as i32),
    decreases vs.len(),
{
    if vs.len() == 0 {
        lemma_mask_ops(0, 0, (v - 1) as u16);
    } else {
        let d = vs.drop_last();
        assert(points_in_range(d)) by {
            assert forall|i: int| 0 <= i < d.len() implies 1 <= #[trigger] d[i] <= 16 by {
                assert(d[i] == vs[i]);
            }
        }
        lemma_bitset_of(d, v);
        let x = vs.last();
        assert(1 <= vs[vs.len() - 1] <= 16);
        lemma_mask_set(bitset_of(d), (x - 1) as u16, (v - 1) as u16);
        if d.contains(v as i32) {
            let j = choose|j: int| 0 <= j < d.len() && d[j] == v as i32;
            assert(vs[j] == v as i32);
        }
        if vs.contains(v as i32) {
            let j = choose|j: int| 0 <= j < vs.len() && vs[j] == v as i32;
            if j < d.len() {
                assert(d[j] == v as i32);
            }
        }
        if x == v {
            assert(vs[vs.len() - 1] == v as i32);
        }
    }
}

/// The bit of a point.
fn point_bit(v: i32) -> (m: u16)
    requires
        1 <= v <= 16,
    ensures
        m == point_mask(v as int),
        m != 0,
{
    let s: u16 = (v - 1) as u16;
    proof {
        lemma_mask_set(0, s, s);
    }
    0x8000u16 >> s
}

/// The bits of a list of points, or `None` if a point occurs twice.
pub fn variables_to_bitset(variables: &[i32]) -> (r: Option<u16>)
    requires
        points_in_range(variables@),
    ensures
        r == if variables@.no_duplicates() {
            Some(bitset_of(variables@))
        } else {
            None::<u16>
        },
{
    let mut indices: u16 = 0;
    let mut i: usize = 0;
    assert(variables@.take(0) =~= Seq::<i32>::empty());
    while i < variables.len()
        invariant
            i <= variables@.len(),
            points_in_range(variables@),
            variables@.take(i as int).no_duplicates(),
            indices == bitset_of(variables@.take(i as int)),
        decreases variables@.len() - i,
    {
        let ghost prefix = variables@.take(i as int);
        let x = variables[i];
        let m = point_bit(x);
        proof {
            assert(points_in_range(prefix)) by {
                assert forall|j: int| 0 <= j < prefix.len() implies 1 <= #[trigger] prefix[j] <= 16 by {
                    assert(prefix[j] == variables@[j]);
                }
            }
            lemma_bitset_of(prefix, x as int);
            assert(variables@.take(i + 1) =~= prefix.push(x));
            assert(variables@.take(i + 1).drop_last() =~= prefix);
        }
        if indices & m != 0 {
            proof {
                let j = choose|j: int| 0 <= j < prefix.len() && prefix[j] == x;
                assert(variables@[j] == variables@[i as int]);
            }
            return None;
        }
        indices = indices | m;
        proof {
            let next = variables@.take(i + 1);
            assert forall|a: int, b: int| 0 <= a < next.len() && 0 <= b < next.len() && a != b implies next[a] != next[b] by {
                if a < i && b < i {
                    assert(prefix[a] != prefix[b]);
                } else if a < i {
                    assert(prefix[a] == next[a]);
                } else if b < i {
                    assert(prefix[b] == next[b]);
                }
            }
        }
        i += 1;
    }
    assert(variables@.take(i as int) =~= variables@);
    Some(indices)
}

/// A set of points out of the points 1 to 16. The Gamma of no point is nil:
/// it stands for zero.
#[derive(Debug, Clone, Copy, PartialEq, Eq, PartialOrd, Ord, Hash, Structural)]
pub struct Gamma {
    indices: u16,
}

impl Gamma {
    /// The bits of this Gamma: bit `16 - v` for the point `v`.
    pub closed spec fn bits(self) -> u16 {
        self.indices
    }

    /// Whether the Gamma holds the point `v`.
    pub open spec fn has(self, v: int) -> bool {
        1 <= v <= 16 && self.bits() & point_mask(v) != 0
    }

    /// The points that the Gamma holds.
    pub open spec fn points(self) -> Set<int> {
        Set::new(|v: int| self.has(v))
    }

    /// The code of a Gamma is its bits read as a number.
    pub proof fn lemma_code(self)
        ensures
            self.code() == self.bits(),
    {
    }

    /// A Gamma is nil exactly when it holds no point.
    pub proof fn lemma_nil(self)
        ensures
            self.bits() == 0 <==> forall|v: int| !self.has(v),
    {
        if self.bits() != 0 {
            let t = lemma_some_bit(self.bits());
            assert(self.has(t + 1));
        } else {
            assert forall|v: int| !self.has(v) by {
                if 1 <= v <= 16 {
                    lemma_mask_ops(0, 0, (v - 1) as u16);
                }
            }
        }
    }

    /// The nil Gamma.
    pub fn new() -> (r: Self)
        ensures
            r.bits() == 0,
    {
        Gamma { indices: 0 }
    }

    /// The Gamma with the given bits.
    pub fn from_bitset(indices: u16) -> (r: Self)
        ensures
            r.bits() == indices,
    {
        Gamma { indices }
    }

    /// The Gamma of the points of a list; the nil Gamma if a point occurs twice.
    pub fn from_vector(variables: &[i32]) -> (r: Self)
        requires
            points_in_range(variables@),
        ensures
            r.bits() == if variables@.no_duplicates() {
                bitset_of(variables@)
            } else {
                0u16
            },
    {
        match variables_to_bitset(variables) {
            None => Gamma::new(),
            Some(indices) => Gamma::from_bitset(indices),
        }
    }

    /// Whether this is the nil Gamma.
    pub fn is_nil(&self) -> (r: bool)
        ensures
            r == (self.bits() == 0),
    {
        self.indices == 0
    }

    /// The bits of this Gamma.
    pub fn index_bitset(&self) -> (r: u16)
        ensures
            r == self.bits(),
    {
        self.indices
    }

    /// The points of this Gamma, in increasing order.
    pub fn index_iter(&self) -> (r: Vec<i32>)
        ensures
            r@ == point_list(self.bits(), 16),
            points_in_range(r@),
            forall|i: int, j: int| 0 <= i < j < r@.len() ==> r@[i] < r@[j],
            forall|v: int| 1 <= v <= 16 ==> (self.has(v) <==> r@.contains(v as i32)),
    {
        let mut r: Vec<i32> = Vec::new();
        let mut v: i32 = 1;
        while v <= 16
            invariant
                1 <= v <= 17,
                r@ == point_list(self.indices, v - 1),
                points_in_range(r@),
                forall|i: int| 0 <= i < r@.len() ==> r@[i] < v,
                forall|i: int, j: int| 0 <= i < j < r@.len() ==> r@[i] < r@[j],
                forall|u: int| 1 <= u < v ==> (self.has(u) <==> r@.contains(u as i32)),
            decreases 17 - v,
        {
            let ghost before = r@;
            if self.indices & point_bit(v) != 0 {
                r.push(v);
                proof {
                    assert(r@[r@.len() - 1] == v);
                    assert forall|u: int| 1 <= u < v + 1 implies (self.has(u) <==> r@.contains(u as i32)) by {
                        if before.contains(u as i32) {
                            let j = choose|j: int| 0 <= j < before.len() && before[j] == u as i32;
                            assert(r@[j] == u as i32);
                        }
                        if r@.contains(u as i32) && u < v {
                            let j = choose|j: int| 0 <= j < r@.len() && r@[j] == u as i32;
                            assert(before[j] == u as i32);
                        }
                    }
                }
            } else {
                proof {
                    assert forall|u: int| 1 <= u < v + 1 implies (self.has(u) <==> r@.contains(u as i32)) by {
                        if r@.contains(u as i32) {
                            let j = choose|j: int| 0 <= j < r@.len() && r@[j] == u as i32;
                        }
                    }
                }
            }
            v += 1;
        }
        r
    }
}

impl Atom for Gamma {
    closed spec fn code(self) -> int {
        self.indices as int
    }

    fn precedes(self, other: Self) -> (r: bool) {
        self.indices < other.indices
    }

    fn same_as(self, other: Self) -> (r: bool) {
        self.indices == other.indices
    }
}

/// A product of Gammas: a word whose letters are Gammas. The order of the
/// factors matters.
#[derive(Debug, PartialEq, Eq, PartialOrd, Ord, Hash)]
pub struct GammaProduct {
    items: CodeStore,
}

impl GammaProduct {
    /// The empty product.
    pub fn new() -> (r: Self)
        ensures
            r.key() == Seq::<int>::empty(),
    {
        let r = GammaProduct { items: store_new() };
        assert(r.key() =~= Seq::<int>::empty());
        r
    }

    /// The product of one Gamma.
    pub fn of_one(g: Gamma) -> (r: Self)
        ensures
            r.key() == seq![g.code()],
    {
        let mut items = store_new();
        store_push(&mut items, g.index_bitset());
        assert(code_ints(stored(items)) =~= seq![g.code()]);
        GammaProduct { items }
    }
}

impl Clone for GammaProduct {
    fn clone(&self) -> (r: Self)
        ensures
            r.key() == self.key(),
    {
        GammaProduct { items: store_clone(&self.items) }
    }
}

impl LinearMonom for GammaProduct {
    closed spec fn key(&self) -> Seq<int> {
        code_ints(stored(self.items))
    }

    fn compare(&self, other: &Self) -> (r: WordOrder) {
        compare_stores(&self.items, &other.items)
    }

    fn duplicate(&self) -> (r: Self) {
        GammaProduct { items: store_clone(&self.items) }
    }
}

impl VectorLike<Gamma> for GammaProduct {
    fn new() -> (r: Self) {
        GammaProduct::new()
    }

    fn len(&self) -> (n: usize) {
        store_len(&self.items)
    }

    fn at(&self, i: usize) -> (x: Gamma) {
        Gamma::from_bitset(store_get(&self.items, i))
    }

    fn pop(&mut self) -> (x: Option<Gamma>) {
        let ghost before = stored(self.items);
        match store_pop(&mut self.items) {
            None => None,
            Some(c) => {
                assert(code_ints(stored(self.items)) =~= code_ints(before).drop_last());
                Some(Gamma::from_bitset(c))
            },
        }
    }

    fn push(&mut self, value: Gamma) {
        let ghost before = stored(self.items);
        store_push(&mut self.items, value.index_bitset());
        assert(code_ints(stored(self.items)) =~= code_ints(before).push(value.code()));
    }

    /// The store rounds the number of codes up to a power of two, and the
    /// codes, of two bytes each, must fit into `isize::MAX` bytes.
    open spec fn can_reserve(total: int) -> bool {
        total <= isize::MAX / 4
    }

    /// The codes, of two bytes each, must fit into `isize::MAX` bytes.
    open spec fn can_reserve_exact(total: int) -> bool {
        total <= isize::MAX / 2
    }

    fn reserve(&mut self, additional: usize) {
        store_reserve(&mut self.items, additional);
    }

    fn reserve_exact(&mut self, additional: usize) {
        store_reserve_exact(&mut self.items, additional);
    }

    fn from_slice(slice: &[Gamma]) -> (r: Self) {
        let mut items = store_new();
        let mut i: usize = 0;
        assert(code_ints(stored(items)) =~= codes(slice@.take(0)));
        while i < slice.len()
            invariant
                i <= slice@.len(),
                code_ints(stored(items)) == codes(slice@.take(i as int)),
            decreases slice@.len() - i,
        {
            let ghost before = stored(items);
            store_push(&mut items, slice[i].index_bitset());
            assert(code_ints(stored(items)) =~= codes(slice@.take(i + 1))) by {
                assert(code_ints(stored(items)) =~= code_ints(before).push(slice@[i as int].code()));
                assert(slice@.take(i + 1) =~= slice@.take(i as int).push(slice@[i as int]));
            }
            i += 1;
        }
        assert(slice@.take(i as int) =~= slice@);
        GammaProduct { items }
    }
}

impl MonomVectorizable for GammaProduct {
    type Element = Gamma;

    type AsVector = Self;

    fn to_vector(self) -> (r: Self) {
        self
    }

    fn from_vector(v: Self) -> (r: Self) {
        v
    }
}

impl TensorProduct for GammaProduct {
    fn tensor_product(&self, rhs: &GammaProduct) -> (r: GammaProduct) {
        let mut ret = store_clone(&self.items);
        let n = store_len(&rhs.items);
        let mut i: usize = 0;
        assert(stored(rhs.items).take(0) =~= Seq::<u16>::empty());
        assert(stored(*&self.items) + Seq::<u16>::empty() =~= stored(*&self.items));
        while i < n
            invariant
                i <= n,
                n == stored(rhs.items).len(),
                stored(ret) == stored(self.items) + stored(rhs.items).take(i as int),
            decreases n - i,
        {
            let x = store_get(&rhs.items, i);
            store_push(&mut ret, x);
            assert((stored(self.items) + stored(rhs.items).take(i as int)).push(x) =~= stored(self.items)
                + stored(rhs.items).take(i + 1));
            i += 1;
        }
        assert(stored(rhs.items).take(n as int) =~= stored(rhs.items));
        assert(code_ints(stored(self.items) + stored(rhs.items)) =~= code_ints(stored(self.items))
            + code_ints(stored(rhs.items)));
        GammaProduct { items: ret }
    }
}

/// A formal sum of products of Gammas.
pub type GammaExpr = Linear<GammaProduct>;

/// The Gamma of a list of points as a formal sum: the empty sum for the nil
/// Gamma, the Gamma itself with the coefficient 1 otherwise.
#[allow(non_snake_case)]
pub fn G(variables: &[i32]) -> (r: GammaExpr)
    requires
        points_in_range(variables@),
    ensures
        r.wf(),
        r.labels() == Map::<Seq<int>, int>::empty(),
        r@ == if !variables@.no_duplicates() || bitset_of(variables@) == 0 {
            Map::<Seq<int>, int>::empty()
        } else {
            single_map(seq![bitset_of(variables@) as int], 1)
        },
{
    let g = Gamma::from_vector(variables);
    if g.is_nil() {
        GammaExpr::zero()
    } else {
        GammaExpr::single(GammaProduct::of_one(g))
    }
}

/// The terms of a list with each key exchanged for its image.
pub open spec fn rekeyed(t: TermSeq, g: spec_fn(Word) -> Word) -> TermSeq {
    Seq::new(t.len(), |i: int| (g(t[i].0), t[i].1))
}

/// The two points of the Delta with the code `c`: the smaller, then the larger.
pub open spec fn delta_points(c: int) -> (int, int) {
    (c % 256 - 128, c / 256 - 128)
}

/// The code of the Gamma of the two points of the Delta with the code `c`:
/// that of the nil Gamma where the two points are the same.
pub open spec fn gamma_of_delta(c: int) -> int {
    let (a, b) = delta_points(c);
    if a == b {
        0
    } else {
        (point_mask(a) | point_mask(b)) as int
    }
}

/// Every letter of the word is the code of a Delta of two of the points 1 to 16.
pub open spec fn delta_key_in_range(k: Word) -> bool {
    forall|i: int| 0 <= i < k.len() ==> 0 <= #[trigger] k[i] <= 0xffff && 1 <= delta_points(k[i]).0
        <= 16 && 1 <= delta_points(k[i]).1 <= 16
}

/// The key of the product of Gammas that a product of Deltas becomes.
pub open spec fn gamma_key_of(k: Word) -> Word {
    Seq::new(k.len(), |i: int| gamma_of_delta(k[i]))
}

/// The product of the Gammas of the Deltas of a product.
pub fn delta_product_to_gamma(monom: &DeltaProduct) -> (r: GammaProduct)
    requires
        delta_key_in_range(monom.key()),
    ensures
        r.key() == gamma_key_of(monom.key()),
{
    let ghost k = monom.key();
    let mut r = GammaProduct::new();
    let n = monom.len();
    let mut i: usize = 0;
    assert(gamma_key_of(k).take(0) =~= Seq::<int>::empty());
    while i < n
        invariant
            i <= n,
            n == k.len(),
            k == monom.key(),
            delta_key_in_range(k),
            r.key() == gamma_key_of(k).take(i as int),
        decreases n - i,
    {
        let d = monom.at(i);
        let a = d.a();
        let b = d.b();
        proof {
            d.lemma_code();
            assert(0 <= k[i as int] <= 0xffff);
            assert(delta_points(k[i as int]) == (a as int, b as int));
        }
        let pair: Vec<i32> = vec![a, b];
        proof {
            assert(pair@ =~= seq![a, b]);
            assert(pair@.no_duplicates() == (a != b)) by {
                if a != b {
                    assert forall|x: int, y: int| 0 <= x < pair@.len() && 0 <= y < pair@.len() && x != y implies pair@[x] != pair@[y] by {}
                } else {
                    assert(pair@[0] == pair@[1]);
                }
            }
            assert(pair@.drop_last() =~= seq![a]);
            assert(seq![a].drop_last() =~= Seq::<i32>::empty());
            let ma = point_mask(a as int);
            let mb = point_mask(b as int);
            assert((0u16 | ma) | mb == ma | mb) by (bit_vector);
            assert(seq![a].last() == a);
            assert(bitset_of(Seq::<i32>::empty()) == 0);
            assert(bitset_of(seq![a].drop_last()) == 0);
            assert(bitset_of(seq![a]) == 0u16 | ma);
            assert(pair@.last() == b);
            assert(bitset_of(pair@) == ma | mb);
        }
        let g = Gamma::from_vector(pair.as_slice());
        let ghost before = r.key();
        r.push(g);
        proof {
            assert(g.code() == gamma_of_delta(k[i as int]));
            assert(before.push(g.code()) =~= gamma_key_of(k).take(i + 1));
        }
        i += 1;
    }
    assert(gamma_key_of(k).take(n as int) =~= gamma_key_of(k));
    r
}

/// Every word of the sum is a product of Deltas of points from 1 to 16.
pub open spec fn delta_sum_in_range(m: SumMap) -> bool {
    forall|w: Word| #[trigger] m.contains_key(w) ==> delta_key_in_range(w)
}

/// The sum of Gammas that a sum of Deltas becomes: every Delta is exchanged
/// for the Gamma of its two points. The labels are dropped.
pub fn delta_expr_to_gamma_expr(expr: DeltaExpr) -> (r: Result<GammaExpr, ArithmeticError>)
    requires
        expr.wf(),
        delta_sum_in_range(expr@),
    ensures
        result_view(r) == sum_outcome(
            accumulate(Map::empty(), rekeyed(expr.terms(), |k: Word| gamma_key_of(k))),
        ),
        r is Ok ==> r->Ok_0.wf() && r->Ok_0.labels() == Map::<Seq<int>, int>::empty(),
{
    let ghost t = expr.terms();
    let ghost es = expr.entries();
    proof {
        expr.lemma_view();
        assert forall|i: int| 0 <= i < es.len() implies delta_key_in_range((#[trigger] es[i]).0.key()) by {
            assert(t[i].0 == es[i].0.key());
            assert(expr@.contains_key(t[i].0));
        }
    }
    let f = |monom: DeltaProduct| -> (g: GammaProduct)
        requires
            delta_key_in_range(monom.key()),
        ensures
            g.key() == gamma_key_of(monom.key()),
        { delta_product_to_gamma(&monom) };
    let r = expr.map(f);
    proof {
        let imgs = choose|imgs: Seq<GammaProduct>| #[trigger]
            mapped_by(f, es, imgs) && result_view(r) == sum_outcome(
                accumulate(Map::empty(), image_terms(imgs, t)),
            );
        assert(image_terms(imgs, t) =~= rekeyed(t, |k: Word| gamma_key_of(k))) by {
            assert forall|i: int| 0 <= i < t.len() implies image_terms(imgs, t)[i] == rekeyed(t, |k: Word| gamma_key_of(k))[i] by {
                assert(f.ensures((es[i].0,), imgs[i]));
                assert(t[i].0 == es[i].0.key());
            }
        }
    }
    r
}

/// Why a sum could not be converted.
#[derive(Clone, Copy, PartialEq, Eq, Debug, Structural)]
pub enum ConversionError {
    /// A Gamma did not have exactly two points.
    Dimension,
    /// A coefficient left the range of the coefficient type.
    Arithmetic(ArithmeticError),
}

/// The Gamma with the code `c` has exactly two points.
pub open spec fn is_pair(c: int) -> bool {
    0 <= c <= 0xffff && point_list(c as u16, 16).len() == 2
}

/// Every letter of the word is the code of a Gamma of two points.
pub open spec fn all_pairs(k: Word) -> bool {
    forall|i: int| 0 <= i < k.len() ==> is_pair(#[trigger] k[i])
}

/// The code of the Delta of the two points of the Gamma with the code `c`.
pub open spec fn delta_of_gamma(c: int) -> int {
    Delta::of(
        X::Variable(point_list(c as u16, 16)[0]),
        X::Variable(point_list(c as u16, 16)[1]),
    ).code()
}

/// The key of the product of Deltas that a product of Gammas becomes.
pub open spec fn delta_key_of(k: Word) -> Word {
    Seq::new(k.len(), |i: int| delta_of_gamma(k[i]))
}

/// Whether every Gamma of the product has exactly two points.
fn product_is_pairs(monom: &GammaProduct) -> (r: bool)
    ensures
        r == all_pairs(monom.key()),
{
    let n = monom.len();
    let mut i: usize = 0;
    while i < n
        invariant
            i <= n,
            n == monom.key().len(),
            forall|j: int| 0 <= j < i ==> is_pair(#[trigger] monom.key()[j]),
        decreases n - i,
    {
        let g = monom.at(i);
        proof {
            g.lemma_code();
        }
        if g.index_iter().len() != 2 {
            assert(!is_pair(monom.key()[i as int]));
            return false;
        }
        i += 1;
    }
    true
}

/// The product of the Deltas of the Gammas of a product.
pub fn gamma_product_to_delta(monom: &GammaProduct) -> (r: DeltaProduct)
    requires
        all_pairs(monom.key()),
    ensures
        r.key() == delta_key_of(monom.key()),
{
    let ghost k = monom.key();
    let mut r = <DeltaProduct as VectorLike<Delta>>::new();
    let n = monom.len();
    let mut i: usize = 0;
    assert(delta_key_of(k).take(0) =~= Seq::<int>::empty());
    while i < n
        invariant
            i <= n,
            n == k.len(),
            k == monom.key(),
            all_pairs(k),
            r.key() == delta_key_of(k).take(i as int),
        decreases n - i,
    {
        let g = monom.at(i);
        proof {
            g.lemma_code();
            assert(is_pair(k[i as int]));
        }
        let pts = g.index_iter();
        let a = pts[0];
        let b = pts[1];
        assert(1 <= pts@[0] <= 16 && 1 <= pts@[1] <= 16);
        let d = Delta::new(a, b);
        let ghost before = r.key();
        r.push(d);
        proof {
            assert(d.code() == delta_of_gamma(k[i as int]));
            assert(before.push(d.code()) =~= delta_key_of(k).take(i + 1));
        }
        i += 1;
    }
    assert(delta_key_of(k).take(n as int) =~= delta_key_of(k));
    r
}

/// Every word of the sum is a product of Gammas of two points.
pub open spec fn gamma_sum_is_pairs(m: SumMap) -> bool {
    forall|w: Word| #[trigger] m.contains_key(w) ==> all_pairs(w)
}

/// The conversion error that stands for an arithmetic failure.
pub open spec fn lift_error(r: Result<SumMap, ArithmeticError>) -> Result<SumMap, ConversionError> {
    match r {
        Ok(m) => Ok(m),
        Err(e) => Err(ConversionError::Arithmetic(e)),
    }
}

/// The sum of Deltas that a sum of Gammas of two points becomes: every
/// Gamma is exchanged for the Delta of its two points. Fails if a Gamma of
/// the sum does not have exactly two points. The labels are dropped.
pub fn gamma_expr_to_delta_expr(expr: GammaExpr) -> (r: Result<DeltaExpr, ConversionError>)
    requires
        expr.wf(),
    ensures
        !gamma_sum_is_pairs(expr@) ==> r is Err && r->Err_0 == ConversionError::Dimension,
        gamma_sum_is_pairs(expr@) ==> (match r {
            Ok(p) => Ok(p@),
            Err(e) => Err(e),
        }) == lift_error(
            sum_outcome(accumulate(Map::empty(), rekeyed(expr.terms(), |k: Word| delta_key_of(k)))),
        ),
        r is Ok ==> r->Ok_0.wf() && r->Ok_0.labels() == Map::<Seq<int>, int>::empty(),
{
    let ghost t = expr.terms();
    let ghost es = expr.entries();
    proof {
        expr.lemma_view();
    }
    let items = expr.iter();
    let mut i: usize = 0;
    while i < items.len()
        invariant
            i <= items@.len(),
            term_list(items@) == t,
            t == expr.terms(),
            forall|j: int| 0 <= j < t.len() ==> expr@.contains_key((#[trigger] t[j]).0),
            forall|j: int| 0 <= j < i ==> all_pairs((#[trigger] t[j]).0),
        decreases items@.len() - i,
    {
        assert(t[i as int].0 == items@[i as int].0.key());
        if !product_is_pairs(&items[i].0) {
            assert(expr@.contains_key(t[i as int].0));
            return Err(ConversionError::Dimension);
        }
        i += 1;
    }
    proof {
        assert forall|w: Word| #[trigger] expr@.contains_key(w) implies all_pairs(w) by {
            let j = choose|j: int| 0 <= j < t.len() && (#[trigger] t[j]).0 == w;
            assert(all_pairs(t[j].0));
        }
        assert forall|j: int| 0 <= j < es.len() implies all_pairs((#[trigger] es[j]).0.key()) by {
            assert(t[j].0 == es[j].0.key());
        }
    }
    let f = |monom: GammaProduct| -> (d: DeltaProduct)
        requires
            all_pairs(monom.key()),
        ensures
            d.key() == delta_key_of(monom.key()),
        { gamma_product_to_delta(&monom) };
    let res = expr.map(f);
    proof {
        let imgs = choose|imgs: Seq<DeltaProduct>| #[trigger]
            mapped_by(f, es, imgs) && result_view(res) == sum_outcome(
                accumulate(Map::empty(), image_terms(imgs, t)),
            );
        assert(image_terms(imgs, t) =~= rekeyed(t, |k: Word| delta_key_of(k))) by {
            assert forall|j: int| 0 <= j < t.len() implies image_terms(imgs, t)[j] == rekeyed(t, |k: Word| delta_key_of(k))[j] by {
                assert(f.ensures((es[j].0,), imgs[j]));
                assert(t[j].0 == es[j].0.key());
            }
        }
    }
    match res {
        Ok(p) => Ok(p),
        Err(e) => Err(ConversionError::Arithmetic(e)),
    }
}

/// What can be turned into a sum of Gammas.
pub trait ConvertibleToGammaExpr: Sized {
    /// Whether this value can be converted.
    spec fn convertible(&self) -> bool;

    /// The sum that the conversion comes to, or its failure.
    spec fn gamma_view(&self) -> Result<SumMap, ArithmeticError>;

    /// The labels that the conversion keeps.
    spec fn gamma_labels(&self) -> SumMap;

    /// The value as a sum of Gammas.
    fn to_gamma_expr(self) -> (r: Result<GammaExpr, ArithmeticError>)
        requires
            self.convertible(),
        ensures
            result_view(r) == self.gamma_view(),
            r is Ok ==> r->Ok_0.wf() && r->Ok_0.labels() == self.gamma_labels(),
    ;
}

impl ConvertibleToGammaExpr for Linear<GammaProduct> {
    open spec fn convertible(&self) -> bool {
        self.wf()
    }

    open spec fn gamma_view(&self) -> Result<SumMap, ArithmeticError> {
        Ok(self@)
    }

    open spec fn gamma_labels(&self) -> SumMap {
        self.labels()
    }

    fn to_gamma_expr(self) -> (r: Result<GammaExpr, ArithmeticError>) {
        Ok(self)
    }
}

impl ConvertibleToGammaExpr for Linear<DeltaProduct> {
    open spec fn convertible(&self) -> bool {
        self.wf() && delta_sum_in_range(self@)
    }

    open spec fn gamma_view(&self) -> Result<SumMap, ArithmeticError> {
        sum_outcome(accumulate(Map::empty(), rekeyed(self.terms(), |k: Word| gamma_key_of(k))))
    }

    open spec fn gamma_labels(&self) -> SumMap {
        Map::empty()
    }

    fn to_gamma_expr(self) -> (r: Result<GammaExpr, ArithmeticError>) {
        delta_expr_to_gamma_expr(self)
    }
}

/// A Gamma of the word has a point in common with the bonus points.
pub open spec fn hits(k: Word, bits: u16) -> bool {
    exists|i: int| 0 <= i < k.len() && ((#[trigger] k[i]) as u16) & bits != 0
}

/// The word with the bonus points added to each of its Gammas.
pub open spec fn widened_key(k: Word, bits: u16) -> Word {
    Seq::new(k.len(), |i: int| ((k[i] as u16) | bits) as int)
}

/// What a product of Gammas is pulled back to: nothing if one of its Gammas
/// has a point in common with the bonus points, and else the product with the
/// bonus points added to each Gamma.
pub open spec fn pullback_part(k: Word, bits: u16) -> SumMap {
    if hits(k, bits) {
        Map::empty()
    } else {
        single_map(widened_key(k, bits), 1)
    }
}

/// What each term of a list is pulled back to.
pub open spec fn pullback_parts(t: TermSeq, bits: u16) -> Seq<SumMap> {
    Seq::new(t.len(), |i: int| pullback_part(t[i].0, bits))
}

/// The pullback of one product of Gammas.
fn pullback_monom(monom: &GammaProduct, bonus: u16) -> (r: GammaExpr)
    ensures
        r.wf(),
        r@ == pullback_part(monom.key(), bonus),
        r.labels() == Map::<Seq<int>, int>::empty(),
{
    let ghost k = monom.key();
    let mut is_zero = false;
    let mut new_monom = GammaProduct::new();
    let n = monom.len();
    let mut i: usize = 0;
    assert(widened_key(k, bonus).take(0) =~= Seq::<int>::empty());
    while i < n
        invariant
            i <= n,
            n == k.len(),
            k == monom.key(),
            new_monom.key() == widened_key(k, bonus).take(i as int),
            is_zero <==> exists|j: int| 0 <= j < i && ((#[trigger] k[j]) as u16) & bonus != 0,
        decreases n - i,
    {
        let g = monom.at(i);
        proof {
            g.lemma_code();
        }
        if g.index_bitset() & bonus != 0 {
            is_zero = true;
        }
        let wide = Gamma::from_bitset(g.index_bitset() | bonus);
        let ghost before = new_monom.key();
        new_monom.push(wide);
        proof {
            wide.lemma_code();
            assert(before.push(wide.code()) =~= widened_key(k, bonus).take(i + 1));
        }
        i += 1;
    }
    assert(widened_key(k, bonus).take(n as int) =~= widened_key(k, bonus));
    if is_zero {
        GammaExpr::zero()
    } else {
        GammaExpr::single(new_monom)
    }
}

/// The text of the label of a pullback: the label that is pulled back and
/// the bonus points.
pub open spec fn pullback_label(annotation: Seq<char>, points: Seq<i32>) -> Seq<char> {
    "pb("@ + annotation + ", "@ + join_spec(Seq::new(points.len(), |i: int| decimal_text(points[i] as int)), ","@)
        + ")"@
}

/// The label of a pullback: the label that is pulled back, and the bonus
/// points in ascending order.
pub fn make_pullback_label(annotation: &str, bonus_points: &[i32]) -> (r: String)
    ensures
        exists|points: Seq<i32>| points.to_multiset() == bonus_points@.to_multiset() && (forall|
            i: int,
            j: int,
        | 0 <= i < j < points.len() ==> points[i] <= points[j]) && r@ == pullback_label(annotation@, points),
{
    let sorted = sorted_numbers(bonus_points);
    let mut names: Vec<String> = Vec::new();
    let mut i: usize = 0;
    while i < sorted.len()
        invariant
            i <= sorted@.len(),
            texts(names@) == Seq::new(i as nat, |j: int| decimal_text(sorted@[j] as int)),
        decreases sorted@.len() - i,
    {
        let ghost before = texts(names@);
        let name = decimal(sorted[i]);
        assert(name@ == decimal_text(sorted@[i as int] as int));
        names.push(name);
        assert(texts(names@) =~= before.push(decimal_text(sorted@[i as int] as int)));
        assert(texts(names@) =~= Seq::new((i + 1) as nat, |j: int| decimal_text(sorted@[j] as int)));
        i += 1;
    }
    let joined = join_strings(&names, ",");
    let mut s = String::from_str("pb(");
    s.append(annotation);
    s.append(", ");
    s.append(joined.as_str());
    s.append(")");
    assert(texts(names@) =~= Seq::new(sorted@.len(), |j: int| decimal_text(sorted@[j] as int)));
    assert(s@ == pullback_label(annotation@, sorted@));
    s
}

/// The expansion of parts without labels has no labels.
proof fn lemma_expand_no_labels(ls: Seq<SumMap>, t: TermSeq)
    requires
        forall|i: int| 0 <= i < ls.len() ==> #[trigger] ls[i] == Map::<Seq<int>, int>::empty(),
    ensures
        expand_sums(ls, t) == Some(Map::<Seq<int>, int>::empty()),
    decreases ls.len(),
{
    if ls.len() > 0 {
        lemma_expand_no_labels(ls.drop_last(), t);
        let z = Map::<Seq<int>, int>::empty();
        let c = t[ls.len() - 1].1;
        assert(ls.last() == ls[ls.len() - 1]);
        assert(map_scale(z, c) =~= z);
        assert(map_add(z, z) =~= z);
    }
}

/// The pullback of a sum of Gammas along bonus points: the bonus points are
/// added to every Gamma, and a product one of whose Gammas has a point in
/// common with the bonus points is dropped. Without bonus points the sum
/// stays as it is, labels included; bonus points with a repeated point give
/// the empty sum.
pub fn pullback<E: ConvertibleToGammaExpr>(expr: E, bonus_points: &[i32]) -> (r: Result<
    GammaExpr,
    ArithmeticError,
>)
    requires
        expr.convertible(),
        points_in_range(bonus_points@),
    ensures
        r is Ok ==> r->Ok_0.wf(),
        match expr.gamma_view() {
            Err(e) => r is Err && r->Err_0 == e,
            Ok(g) => if bonus_points@.len() == 0 {
                r is Ok && r->Ok_0@ == g && r->Ok_0.labels() == expr.gamma_labels()
            } else if !bonus_points@.no_duplicates() {
                r is Ok && r->Ok_0@ == Map::<Seq<int>, int>::empty() && r->Ok_0.labels() == Map::<
                    Seq<int>,
                    int,
                >::empty()
            } else {
                result_view(r) == sum_outcome(
                    expand_sums(
                        pullback_parts(sorted_terms(g), bitset_of(bonus_points@)),
                        sorted_terms(g),
                    ),
                ) && (r is Ok ==> r->Ok_0.labels() == Map::<Seq<int>, int>::empty())
            },
        },
{
    let g_expr = match expr.to_gamma_expr() {
        Ok(g) => g,
        Err(e) => {
            return Err(e);
        },
    };
    if bonus_points.len() == 0 {
        return Ok(g_expr);
    }
    let bonus = match variables_to_bitset(bonus_points) {
        None => {
            return Ok(GammaExpr::zero());
        },
        Some(v) => v,
    };
    let ghost t = g_expr.terms();
    let ghost es = g_expr.entries();
    proof {
        g_expr.lemma_view();
        g_expr.lemma_terms_of_view(sorted_terms(g_expr@));
    }
    let f = |monom: GammaProduct| -> (p: GammaExpr)
        ensures
            p.wf(),
            p@ == pullback_part(monom.key(), bonus),
            p.labels() == Map::<Seq<int>, int>::empty(),
        { pullback_monom(&monom, bonus) };
    let expanded = g_expr.map_expanding(f);
    proof {
        let outs = choose|outs: Seq<GammaExpr>| #[trigger]
            mapped_by(f, es, outs) && match (
                expand_sums(views_of(outs), t),
                expand_sums(labels_of(outs), t),
            ) {
                (Some(m), Some(l)) => expanded is Ok && expanded->Ok_0@ == m && expanded->Ok_0.labels() == l,
                _ => expanded is Err && expanded->Err_0 == ArithmeticError::Overflow,
            };
        assert(views_of(outs) =~= pullback_parts(t, bonus)) by {
            assert forall|i: int| 0 <= i < t.len() implies views_of(outs)[i] == pullback_parts(t, bonus)[i] by {
                assert(f.ensures((es[i].0,), outs[i]));
                assert(t[i].0 == es[i].0.key());
            }
        }
        assert forall|i: int| 0 <= i < labels_of(outs).len() implies #[trigger] labels_of(outs)[i] == Map::<Seq<int>, int>::empty() by {
            assert(f.ensures((es[i].0,), outs[i]));
        }
        lemma_expand_no_labels(labels_of(outs), t);
    }
    let pulled = match expanded {
        Ok(p) => p,
        Err(e) => {
            return Err(e);
        },
    };
    let ghost les = pulled.label_entries();
    let ghost lt = pulled.label_terms();
    proof {
        pulled.lemma_view();
        pulled.lemma_no_labels();
    }
    let relabel = |annotation: String| -> (s: String) { make_pullback_label(annotation.as_str(), bonus_points) };
    let res = pulled.map_annotations(relabel);
    proof {
        let imgs = choose|imgs: Seq<String>| #[trigger]
            mapped_by(relabel, les, imgs) && crate::math::linear::result_labels(res) == sum_outcome(
                accumulate(Map::empty(), image_terms(imgs, lt)),
            );
        assert(image_terms(imgs, lt) =~= Seq::<(Seq<int>, int)>::empty());
    }
    res
}

/// The decimal texts of the points of a list.
pub open spec fn point_texts(points: Seq<i32>) -> Seq<Seq<char>> {
    Seq::new(points.len(), |i: int| decimal_text(points[i] as int))
}

/// The text of the Gamma with the given bits: its points in increasing
/// order with commas between them, in parentheses.
pub open spec fn gamma_text(bits: u16) -> Seq<char> {
    "("@ + join_spec(point_texts(point_list(bits, 16)), ","@) + ")"@
}

impl Gamma {
    /// The Gamma as text: its points in increasing order, in parentheses.
    pub fn to_string(&self) -> (r: String)
        ensures
            r@ == gamma_text(self.bits()),
    {
        let points = self.index_iter();
        let mut names: Vec<String> = Vec::new();
        let mut i: usize = 0;
        while i < points.len()
            invariant
                i <= points@.len(),
                texts(names@) == point_texts(points@).take(i as int),
            decreases points@.len() - i,
        {
            let ghost before = texts(names@);
            let name = decimal(points[i]);
            names.push(name);
            assert(texts(names@) =~= before.push(decimal_text(points@[i as int] as int)));
            assert(texts(names@) =~= point_texts(points@).take(i + 1));
            i += 1;
        }
        assert(point_texts(points@).take(i as int) =~= point_texts(points@));
        let mut r = String::from_str("(");
        r.append(join_strings(&names, ",").as_str());
        r.append(")");
        r
    }
}

/// The texts of the Gammas of a word.
pub open spec fn gamma_texts(k: Word) -> Seq<Seq<char>> {
    Seq::new(k.len(), |i: int| gamma_text(k[i] as u16))
}

impl GammaProduct {
    /// The product as text: its Gammas with asterisks between them.
    pub fn to_string(&self) -> (r: String)
        ensures
            r@ == join_spec(gamma_texts(self.key()), " * "@),
    {
        let n = store_len(&self.items);
        let mut parts: Vec<String> = Vec::new();
        let mut i: usize = 0;
        while i < n
            invariant
                i <= n,
                n == self.key().len(),
                texts(parts@) == gamma_texts(self.key()).take(i as int),
            decreases n - i,
        {
            let ghost before = texts(parts@);
            let g = Gamma::from_bitset(store_get(&self.items, i));
            let t = g.to_string();
            parts.push(t);
            proof {
                assert(texts(parts@) =~= before.push(gamma_text(g.bits())));
                assert(texts(parts@) =~= gamma_texts(self.key()).take(i + 1));
            }
            i += 1;
        }
        assert(gamma_texts(self.key()).take(i as int) =~= gamma_texts(self.key()));
        join_strings(&parts, " * ")
    }
}

impl ConversionError {
    /// What went wrong, in words.
    pub open spec fn message_text(self) -> Seq<char> {
        match self {
            ConversionError::Dimension => "Delta expression requires dimension two"@,
            ConversionError::Arithmetic(e) => e.message_text(),
        }
    }

    /// What went wrong, in words.
    pub fn message(&self) -> (r: String)
        ensures
            r@ == self.message_text(),
    {
        match self {
            ConversionError::Dimension => "Delta expression requires dimension two".to_owned(),
            ConversionError::Arithmetic(e) => e.message(),
        }
    }
}

} // verus!
