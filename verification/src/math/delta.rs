//! The Delta algebra: differences of two points, and their ordered products.

use vstd::prelude::*;
use crate::base::small_store::{CodeStore, stored, store_new, store_len, store_get, store_push,
    store_pop, store_reserve, store_reserve_exact, store_clone};
use crate::base::vector_like::{Atom, VectorLike, codes};
use crate::base::word_order::{WordOrder, word_compare, agree_on, lemma_first_difference_is};
use crate::math::linear::{Linear, LinearMonom, MonomVectorizable, TensorProduct};
use crate::math::terms::{single_map, SumMap};
use crate::math::x::{X, XArg};
use crate::base::string_tools::{decimal_text, join_spec, join_strings, texts};
use crate::math_format::{FormatNode, FormattingConfig, MathFormat, SpecialCharacter, is_literal};
use crate::math_format::mfmt::{concat, lit, tensor_prod};
use crate::math_format::render::{FormatError, rendered, text_result};

verus! {

/// The difference of two points, kept with the smaller point first. A Delta
/// of a point with itself is nil: it stands for zero.
///
/// Deltas are ordered by their larger point, then by their smaller one.
#[derive(Debug, Clone, Copy, PartialEq, Eq, PartialOrd, Ord, Hash, Structural)]
pub struct Delta {
    b: i8,
    a: i8,
}

/// The integers that a code store holds.
pub open spec fn code_ints(s: Seq<u16>) -> Seq<int> {
    Seq::new(s.len(), |i: int| s[i] as int)
}

impl Delta {
    /// The Delta of two points that `new` makes: that of the two variables
    /// in increasing order, and the nil Delta if one of the points is at infinity.
    pub closed spec fn of(a: X, b: X) -> Delta {
        match (a, b) {
            (X::Variable(p), X::Variable(q)) => if p < q {
                Delta { b: q as i8, a: p as i8 }
            } else {
                Delta { b: p as i8, a: q as i8 }
            },
            _ => Delta { b: 0, a: 0 },
        }
    }

    /// Whether the two points can be kept in a Delta: variables must be in
    /// the range of `i8`.
    pub open spec fn representable(a: X, b: X) -> bool {
        match (a, b) {
            (X::Variable(p), X::Variable(q)) => i8::MIN <= p <= i8::MAX && i8::MIN <= q <= i8::MAX,
            _ => true,
        }
    }

    /// The smaller point.
    pub closed spec fn spec_a(self) -> int {
        self.a as int
    }

    /// The larger point.
    pub closed spec fn spec_b(self) -> int {
        self.b as int
    }

    /// How the code of a Delta is made of its points.
    pub proof fn lemma_code(self)
        ensures
            self.code() == (self.spec_b() + 128) * 256 + (self.spec_a() + 128),
            -128 <= self.spec_a() <= 127,
            -128 <= self.spec_b() <= 127,
            0 <= self.code() <= u16::MAX,
    {
    }

    /// The points of the Delta that `of` describes.
    pub proof fn lemma_of(a: X, b: X)
        requires
            Self::representable(a, b),
        ensures
            a is Variable && b is Variable ==> Self::of(a, b).spec_a() == (if a->0 < b->0 {
                a->0
            } else {
                b->0
            }) && Self::of(a, b).spec_b() == (if a->0 < b->0 {
                b->0
            } else {
                a->0
            }),
            !(a is Variable && b is Variable) ==> Self::of(a, b).spec_a() == 0 && Self::of(
                a,
                b,
            ).spec_b() == 0,
    {
    }

    /// The Delta of two points.
    pub fn new<A: XArg, B: XArg>(a: A, b: B) -> (r: Delta)
        requires
            Self::representable(a.x(), b.x()),
        ensures
            r == Self::of(a.x(), b.x()),
    {
        match (a.as_x(), b.as_x()) {
            (X::Variable(a_var), X::Variable(b_var)) => {
                if a_var < b_var {
                    Delta { b: b_var as i8, a: a_var as i8 }
                } else {
                    Delta { b: a_var as i8, a: b_var as i8 }
                }
            },
            (_, _) => Delta { b: 0, a: 0 },
        }
    }

    /// The smaller point.
    pub fn a(&self) -> (r: i32)
        ensures
            r == self.spec_a(),
    {
        self.a as i32
    }

    /// The larger point.
    pub fn b(&self) -> (r: i32)
        ensures
            r == self.spec_b(),
    {
        self.b as i32
    }

    /// Whether this is the nil Delta, the difference of a point with itself.
    pub fn is_nil(&self) -> (r: bool)
        ensures
            r == (self.spec_a() == self.spec_b()),
    {
        self.a == self.b
    }

    /// The 16-bit code of this Delta.
    pub fn encode(self) -> (r: u16)
        ensures
            r == self.code(),
    {
        let hi: u16 = (self.b as i16 + 128) as u16;
        let lo: u16 = (self.a as i16 + 128) as u16;
        hi * 256 + lo
    }

    /// The Delta with the given code.
    pub fn decode(x: u16) -> (r: Delta)
        ensures
            r.code() == x,
    {
        let hi: u16 = x / 256;
        let lo: u16 = x % 256;
        Delta { b: (hi as i16 - 128) as i8, a: (lo as i16 - 128) as i8 }
    }
}

impl Atom for Delta {
    closed spec fn code(self) -> int {
        (self.b + 128) * 256 + (self.a + 128)
    }

    fn precedes(self, other: Self) -> (r: bool) {
        self.b < other.b || (self.b == other.b && self.a < other.a)
    }

    fn same_as(self, other: Self) -> (r: bool) {
        self.b == other.b && self.a == other.a
    }
}

/// A product of Deltas: a word whose letters are Deltas. The order of the
/// factors matters.
#[derive(Debug, PartialEq, Eq, PartialOrd, Ord, Hash)]
pub struct DeltaProduct {
    items: CodeStore,
}

/// Compares two code stores lexicographically.
pub fn compare_stores(a: &CodeStore, b: &CodeStore) -> (r: WordOrder)
    ensures
        r == word_compare(code_ints(stored(*a)), code_ints(stored(*b))),
{
    let ghost ka = code_ints(stored(*a));
    let ghost kb = code_ints(stored(*b));
    let na = store_len(a);
    let nb = store_len(b);
    let mut i: usize = 0;
    while i < na && i < nb
        invariant
            i <= na,
            i <= nb,
            na == ka.len(),
            nb == kb.len(),
            ka == code_ints(stored(*a)),
            kb == code_ints(stored(*b)),
            agree_on(ka, kb, 0, i as int),
        decreases na - i,
    {
        let x = store_get(a, i);
        let y = store_get(b, i);
        if x < y {
            proof {
                lemma_first_difference_is(ka, kb, 0, i as int);
            }
            return WordOrder::Less;
        }
        if y < x {
            proof {
                lemma_first_difference_is(ka, kb, 0, i as int);
            }
            return WordOrder::Greater;
        }
        i += 1;
    }
    proof {
        lemma_first_difference_is(ka, kb, 0, i as int);
    }
    if na < nb {
        WordOrder::Less
    } else if na == nb {
        WordOrder::Equal
    } else {
        WordOrder::Greater
    }
}

impl DeltaProduct {
    /// The product of one Delta.
    pub fn of_one(d: Delta) -> (r: Self)
        ensures
            r.key() == seq![d.code()],
    {
        let mut items = store_new();
        store_push(&mut items, d.encode());
        assert(code_ints(stored(items)) =~= seq![d.code()]);
        DeltaProduct { items }
    }
}

impl Clone for DeltaProduct {
    fn clone(&self) -> (r: Self)
        ensures
            r.key() == self.key(),
    {
        DeltaProduct { items: store_clone(&self.items) }
    }
}

impl LinearMonom for DeltaProduct {
    closed spec fn key(&self) -> Seq<int> {
        code_ints(stored(self.items))
    }

    fn compare(&self, other: &Self) -> (r: WordOrder) {
        compare_stores(&self.items, &other.items)
    }

    fn duplicate(&self) -> (r: Self) {
        DeltaProduct { items: store_clone(&self.items) }
    }
}

impl VectorLike<Delta> for DeltaProduct {
    fn new() -> (r: Self) {
        let r = DeltaProduct { items: store_new() };
        assert(r.key() =~= Seq::<int>::empty());
        r
    }

    fn len(&self) -> (n: usize) {
        store_len(&self.items)
    }

    fn at(&self, i: usize) -> (x: Delta) {
        Delta::decode(store_get(&self.items, i))
    }

    fn pop(&mut self) -> (x: Option<Delta>) {
        let ghost before = stored(self.items);
        match store_pop(&mut self.items) {
            None => None,
            Some(c) => {
                assert(code_ints(stored(self.items)) =~= code_ints(before).drop_last());
                Some(Delta::decode(c))
            },
        }
    }

    fn push(&mut self, value: Delta) {
        let ghost before = stored(self.items);
        store_push(&mut self.items, value.encode());
        assert(code_ints(stored(self.items)) =~= code_ints(before).push(value.code()));
    }

    /// The store rounds the number of codes up to a power of two, and the
    /// codes, of two bytes each, must fit into `isize::MAX` bytes.
    open spec fn can_reserve(total: int) -> bool {
        total <= isize::MAX / 4
    }

    /// The codes, of two bytes each, must fit into `isize::MAX` bytes.
    open spec fn can_reserve_exact(total: int) -> bool {
        total <= isize::MAX / 2
    }

    fn reserve(&mut self, additional: usize) {
        store_reserve(&mut self.items, additional);
    }

    fn reserve_exact(&mut self, additional: usize) {
        store_reserve_exact(&mut self.items, additional);
    }

    fn from_slice(slice: &[Delta]) -> (r: Self) {
        let mut items = store_new();
        let mut i: usize = 0;
        assert(code_ints(stored(items)) =~= codes(slice@.take(0)));
        while i < slice.len()
            invariant
                i <= slice@.len(),
                code_ints(stored(items)) == codes(slice@.take(i as int)),
            decreases slice@.len() - i,
        {
            let ghost before = stored(items);
            store_push(&mut items, slice[i].encode());
            assert(code_ints(stored(items)) =~= codes(slice@.take(i + 1))) by {
                assert(code_ints(stored(items)) =~= code_ints(before).push(slice@[i as int].code()));
                assert(slice@.take(i + 1) =~= slice@.take(i as int).push(slice@[i as int]));
            }
            i += 1;
        }
        assert(slice@.take(i as int) =~= slice@);
        DeltaProduct { items }
    }
}

impl MonomVectorizable for DeltaProduct {
    type Element = Delta;

    type AsVector = Self;

    fn to_vector(self) -> (r: Self) {
        self
    }

    fn from_vector(v: Self) -> (r: Self) {
        v
    }
}

impl TensorProduct for DeltaProduct {
    fn tensor_product(&self, rhs: &DeltaProduct) -> (r: DeltaProduct) {
        let mut ret = store_clone(&self.items);
        let n = store_len(&rhs.items);
        let mut i: usize = 0;
        assert(stored(rhs.items).take(0) =~= Seq::<u16>::empty());
        assert(stored(*&self.items) + Seq::<u16>::empty() =~= stored(*&self.items));
        while i < n
            invariant
                i <= n,
                n == stored(rhs.items).len(),
                stored(ret) == stored(self.items) + stored(rhs.items).take(i as int),
            decreases n - i,
        {
            let x = store_get(&rhs.items, i);
            store_push(&mut ret, x);
            assert((stored(self.items) + stored(rhs.items).take(i as int)).push(x) =~= stored(self.items)
                + stored(rhs.items).take(i + 1));
            i += 1;
        }
        assert(stored(rhs.items).take(n as int) =~= stored(rhs.items));
        assert(code_ints(stored(self.items) + stored(rhs.items)) =~= code_ints(stored(self.items))
            + code_ints(stored(rhs.items)));
        DeltaProduct { items: ret }
    }
}

/// A formal sum of products of Deltas.
pub type DeltaExpr = Linear<DeltaProduct>;

/// The Delta of two points as a sum: the empty sum for a nil Delta, the
/// Delta itself with the coefficient 1 otherwise.
pub open spec fn delta_map(a: X, b: X) -> SumMap {
    if Delta::of(a, b).spec_a() == Delta::of(a, b).spec_b() {
        Map::empty()
    } else {
        single_map(seq![Delta::of(a, b).code()], 1)
    }
}

/// The Delta of two points as a formal sum: the empty sum for a nil Delta,
/// the Delta itself with the coefficient 1 otherwise.
#[allow(non_snake_case)]
pub fn D<A: XArg, B: XArg>(a: A, b: B) -> (r: DeltaExpr)
    requires
        Delta::representable(a.x(), b.x()),
    ensures
        r.wf(),
        r.labels() == Map::<Seq<int>, int>::empty(),
        r@ == delta_map(a.x(), b.x()),
{
    let d = Delta::new(a, b);
    if d.is_nil() {
        DeltaExpr::zero()
    } else {
        DeltaExpr::single(DeltaProduct::of_one(d))
    }
}

/// The node shows a Delta: the two points with a hyphen between them, in
/// parentheses.
pub open spec fn is_delta_node(node: FormatNode, a: int, b: int) -> bool {
    node matches FormatNode::Concatenation(c) && c.children@.len() == 5 && is_literal(
        c.children@[0],
        "("@,
    ) && is_literal(c.children@[1], decimal_text(a)) && is_literal(c.children@[2], "-"@)
        && is_literal(c.children@[3], decimal_text(b)) && is_literal(c.children@[4], ")"@)
}

/// The text shows the Delta with the given code under the configuration.
pub open spec fn is_delta_text(text: Seq<char>, code: int, config: FormattingConfig) -> bool {
    exists|node: FormatNode| #[trigger]
        is_delta_node(node, code % 256 - 128, code / 256 - 128) && rendered(node, config) == Ok::<
            Seq<char>,
            FormatError,
        >(text)
}

/// The text of the Delta with the given code cannot be made under the
/// configuration, for the given reason.
pub open spec fn delta_text_fails(e: FormatError, code: int, config: FormattingConfig) -> bool {
    exists|node: FormatNode| #[trigger]
        is_delta_node(node, code % 256 - 128, code / 256 - 128) && rendered(node, config) == Err::<
            Seq<char>,
            FormatError,
        >(e)
}

impl Delta {
    /// The Delta as text: its points with a hyphen between them, in parentheses.
    pub fn to_string(&self, config: &FormattingConfig) -> (r: Result<String, FormatError>)
        ensures
            exists|node: FormatNode| #[trigger]
                is_delta_node(node, self.spec_a(), self.spec_b()) && text_result(r) == rendered(
                    node,
                    *config,
                ),
    {
        let parts = vec![lit("("), lit(self.a()), lit("-"), lit(self.b()), lit(")")];
        let ghost ps = parts@;
        let node = concat(parts);
        proof {
            let c = node->Concatenation_0;
            assert(ps[0].shown_as(c.children@[0]));
            assert(ps[1].shown_as(c.children@[1]));
            assert(ps[2].shown_as(c.children@[2]));
            assert(ps[3].shown_as(c.children@[3]));
            assert(ps[4].shown_as(c.children@[4]));
            assert(is_delta_node(node, self.spec_a(), self.spec_b()));
        }
        node.render(config)
    }
}

impl DeltaProduct {
    /// The product as text: its Deltas with the sign of the tensor product
    /// between them.
    pub fn to_string(&self, config: &FormattingConfig) -> (r: Result<String, FormatError>)
        ensures
            match r {
                Ok(text) => exists|parts: Seq<Seq<char>>, sep: Seq<char>|
                    parts.len() == self.key().len() && (forall|i: int|
                        0 <= i < parts.len() ==> #[trigger] is_delta_text(parts[i], self.key()[i], *config))
                        && rendered(
                        FormatNode::SpecialCharacter(SpecialCharacter::TensorProd),
                        *config,
                    ) == Ok::<Seq<char>, FormatError>(sep) && text@ == #[trigger] join_spec(parts, sep),
                Err(e) => rendered(
                    FormatNode::SpecialCharacter(SpecialCharacter::TensorProd),
                    *config,
                ) == Err::<Seq<char>, FormatError>(e) || exists|i: int|
                    0 <= i < self.key().len() && #[trigger] delta_text_fails(e, self.key()[i], *config),
            },
    {
        let n = store_len(&self.items);
        let mut parts: Vec<String> = Vec::new();
        let mut i: usize = 0;
        while i < n
            invariant
                i <= n,
                n == self.key().len(),
                parts@.len() == i,
                forall|j: int| 0 <= j < i ==> #[trigger] is_delta_text(texts(parts@)[j], self.key()[j], *config),
            decreases n - i,
        {
            let d = Delta::decode(store_get(&self.items, i));
            proof {
                d.lemma_code();
            }
            let shown = d.to_string(config);
            let ghost node = choose|node: FormatNode| #[trigger]
                is_delta_node(node, d.spec_a(), d.spec_b()) && text_result(shown) == rendered(
                    node,
                    *config,
                );
            proof {
                let code = self.key()[i as int];
                assert(code == d.code());
                assert(code % 256 - 128 == d.spec_a());
                assert(code / 256 - 128 == d.spec_b());
                assert(is_delta_node(node, code % 256 - 128, code / 256 - 128));
            }
            match shown {
                Err(e) => {
                    proof {
                        assert(delta_text_fails(e, self.key()[i as int], *config));
                    }
                    return Err(e);
                },
                Ok(t) => {
                    let ghost before = texts(parts@);
                    parts.push(t);
                    proof {
                        assert(is_delta_text(t@, self.key()[i as int], *config));
                        assert forall|j: int| 0 <= j < i + 1 implies #[trigger] is_delta_text(texts(parts@)[j], self.key()[j], *config) by {
                            if j < i {
                                assert(texts(parts@)[j] == before[j]);
                            }
                        }
                    }
                },
            }
            i += 1;
        }
        let sep = match tensor_prod().render(config) {
            Err(e) => {
                return Err(e);
            },
            Ok(s) => s,
        };
        let r = join_strings(&parts, sep.as_str());
        proof {
            assert(r@ == join_spec(texts(parts@), sep@));
        }
        Ok(r)
    }
}

} // verus!
