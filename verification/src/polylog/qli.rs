//! The QLi functions as formal sums of products of Deltas.

use vstd::prelude::*;
use crate::base::string_tools::{char_codes, decimal_text};
use crate::math::algebra::{tensor_product, product_terms, row_terms};
use crate::math::delta::{Delta, DeltaExpr, delta_map};
use crate::math::delta_ratio::{cross_ratio_map, cross_ratio_vec, cycle_map, neg_cross_ratio,
    points_of, cycle_representable};
use crate::math::gamma::{delta_key_in_range, delta_sum_in_range, delta_points};
use crate::math::linear::{ArithmeticError, result_view, sum_outcome};
use crate::math::shuffle::sorted_terms;
use crate::math::terms::{SumMap, TermSeq, Word, accumulate, all_fit, map_add, map_scale, map_sub, single_map, lemma_bounded_ops};
use crate::base::vector_like::Atom;
use crate::math::x::{X, XArg};
use crate::math_format::{FormatNode, FormattingConfig, MathFormat, is_literal};
use crate::math_format::mfmt::{all_shown, comma_list, concat, lit, op};
use crate::math_format::render::{FormatError, push_char, rendered};
use vstd::string::StrSliceExecFns;

verus! {

/// Why a polylogarithm could not be built.
#[derive(PartialEq, Eq, Clone, Copy, Debug, Structural)]
pub enum PolylogError {
    /// The number of points is less than four or odd.
    BadPointCount,
    /// The weight is below the least weight that the number of points allows.
    WeightTooLow,
    /// A coefficient left the range of the coefficient type.
    Arithmetic(ArithmeticError),
    /// The label could not be rendered.
    Format(FormatError),
}

/// A point with the parity of its place among the points of a QLi.
#[derive(Debug, Clone, Copy, PartialEq, Eq, Structural)]
pub struct Point {
    pub x: X,
    pub odd: bool,
}

/// A point that a Delta can hold: a variable in the range of `i8`, or infinity.
pub open spec fn point_ok(x: X) -> bool {
    x is Variable ==> i8::MIN <= x->0 <= i8::MAX
}

/// All the points can be held in Deltas.
pub open spec fn points_ok(p: Seq<Point>) -> bool {
    forall|i: int| 0 <= i < p.len() ==> point_ok(#[trigger] p[i].x)
}

/// A point that a Gamma can hold: a variable from 1 to 16.
pub open spec fn point_in_gamma_range(x: X) -> bool {
    x is Variable && 1 <= x->0 <= 16
}

/// All the points can be held in Gammas.
pub open spec fn points_in_gamma_range(p: Seq<Point>) -> bool {
    forall|i: int| 0 <= i < p.len() ==> point_in_gamma_range(#[trigger] p[i].x)
}

/// The points of a list of tagged points.
pub open spec fn xs_of(p: Seq<Point>) -> Seq<X> {
    Seq::new(p.len(), |i: int| p[i].x)
}

/// The sum at a node of a QLi: a cross-ratio of the four points, whose
/// form and sign go by the parity of the first point.
pub open spec fn node_map(p: Seq<Point>) -> SumMap {
    if p[0].odd {
        cross_ratio_map(p[0].x, p[2].x, p[1].x, p[3].x)
    } else {
        map_scale(cross_ratio_map(p[1].x, p[3].x, p[2].x, p[0].x), -1)
    }
}

/// The tensor product of two sums, added up in checked arithmetic in the
/// order of their terms.
pub open spec fn tensor_map(a: SumMap, b: SumMap) -> Result<SumMap, ArithmeticError> {
    sum_outcome(accumulate(Map::empty(), product_terms(sorted_terms(a), sorted_terms(b))))
}

/// The sum of two sums in checked arithmetic.
pub open spec fn checked_sum(a: SumMap, b: SumMap) -> Result<SumMap, ArithmeticError> {
    if all_fit(map_add(a, b)) {
        Ok(map_add(a, b))
    } else {
        Err(ArithmeticError::Overflow)
    }
}

/// The points without the two that follow the point at `i`.
pub open spec fn foundation(p: Seq<Point>, i: int) -> Seq<Point> {
    p.subrange(0, i + 1) + p.subrange(i + 3, p.len() as int)
}

/// The least weight of a QLi of `n` points.
pub open spec fn min_weight(n: int) -> int {
    (n - 2) / 2
}

/// The number of points and the weight go together.
pub open spec fn qli_valid(weight: int, n: int) -> bool {
    n >= 4 && n % 2 == 0 && weight >= min_weight(n)
}

/// The QLi of the given weight of tagged points.
pub open spec fn qli_map(weight: int, p: Seq<Point>) -> Result<SumMap, ArithmeticError>
    decreases weight, 1nat, 0nat,
{
    let n = p.len() as int;
    if !qli_valid(weight, n) {
        Ok(Map::empty())
    } else if weight == min_weight(n) {
        if n == 4 {
            Ok(node_map(p))
        } else {
            subsums_map(weight, p, (n - 3) as nat)
        }
    } else {
        match qli_map(weight - 1, p) {
            Err(e) => Err(e),
            Ok(q) => match tensor_map(cycle_map(xs_of(p), p.len()), q) {
                Err(e) => Err(e),
                Ok(t) => if n > 4 {
                    match subsums_map(weight, p, (n - 3) as nat) {
                        Err(e) => Err(e),
                        Ok(s) => checked_sum(t, s),
                    }
                } else {
                    Ok(t)
                },
            },
        }
    }
}

/// The sum over the first `i` places of the node at the place times the QLi
/// of one weight less of the points without the two that follow the place.
pub open spec fn subsums_map(weight: int, p: Seq<Point>, i: nat) -> Result<SumMap, ArithmeticError>
    decreases weight, 0nat, i,
{
    if i == 0 || weight <= 0 || i + 3 > p.len() {
        Ok(Map::empty())
    } else {
        match subsums_map(weight, p, (i - 1) as nat) {
            Err(e) => Err(e),
            Ok(acc) => match qli_map(weight - 1, foundation(p, i - 1)) {
                Err(e) => Err(e),
                Ok(q) => match tensor_map(node_map(p.subrange(i - 1, (i + 3) as int)), q) {
                    Err(e) => Err(e),
                    Ok(t) => checked_sum(acc, t),
                },
            },
        }
    }
}

/// The code of the Delta is that of two points from 1 to 16.
pub open spec fn delta_code_in_range(c: int) -> bool {
    0 <= c <= 0xffff && 1 <= delta_points(c).0 <= 16 && 1 <= delta_points(c).1 <= 16
}

/// The Delta of two points from 1 to 16 is a Delta of such points.
pub proof fn lemma_delta_in_range(a: X, b: X)
    requires
        point_in_gamma_range(a),
        point_in_gamma_range(b),
    ensures
        delta_sum_in_range(delta_map(a, b)),
{
    Delta::lemma_of(a, b);
    Delta::of(a, b).lemma_code();
    assert forall|w: Word| #[trigger] delta_map(a, b).contains_key(w) implies delta_key_in_range(w) by {
        assert(w == seq![Delta::of(a, b).code()]);
    }
}

/// Sums, differences and multiples of sums of Deltas of points from 1 to 16
/// are sums of such Deltas.
pub proof fn lemma_in_range_ops(a: SumMap, b: SumMap, k: int)
    requires
        delta_sum_in_range(a),
        delta_sum_in_range(b),
    ensures
        delta_sum_in_range(map_add(a, b)),
        delta_sum_in_range(map_sub(a, b)),
        delta_sum_in_range(map_scale(a, k)),
{
    assert forall|w: Word| #[trigger] map_add(a, b).contains_key(w) implies delta_key_in_range(w) by {
        assert(a.contains_key(w) || b.contains_key(w));
    }
    assert forall|w: Word| #[trigger] map_sub(a, b).contains_key(w) implies delta_key_in_range(w) by {
        assert(a.contains_key(w) || b.contains_key(w));
    }
    assert forall|w: Word| #[trigger] map_scale(a, k).contains_key(w) implies delta_key_in_range(w) by {
        assert(a.contains_key(w));
    }
}

/// The cross-ratio of points from 1 to 16 is a sum of Deltas of such points.
pub proof fn lemma_cross_ratio_in_range(a: X, b: X, c: X, d: X)
    requires
        point_in_gamma_range(a),
        point_in_gamma_range(b),
        point_in_gamma_range(c),
        point_in_gamma_range(d),
    ensures
        delta_sum_in_range(cross_ratio_map(a, b, c, d)),
{
    lemma_delta_in_range(a, b);
    lemma_delta_in_range(c, d);
    lemma_delta_in_range(b, c);
    lemma_delta_in_range(d, a);
    lemma_in_range_ops(delta_map(a, b), delta_map(c, d), 1);
    lemma_in_range_ops(map_add(delta_map(a, b), delta_map(c, d)), delta_map(b, c), 1);
    lemma_in_range_ops(
        map_sub(map_add(delta_map(a, b), delta_map(c, d)), delta_map(b, c)),
        delta_map(d, a),
        1,
    );
}

/// The cross-ratio of a cycle of points from 1 to 16 is a sum of Deltas of such points.
pub proof fn lemma_cycle_in_range(xs: Seq<X>, i: nat)
    requires
        forall|j: int| 0 <= j < xs.len() ==> point_in_gamma_range(#[trigger] xs[j]),
        i <= xs.len(),
    ensures
        delta_sum_in_range(cycle_map(xs, i)),
    decreases i,
{
    if i > 0 {
        lemma_cycle_in_range(xs, (i - 1) as nat);
        let j = (i % xs.len()) as int;
        lemma_delta_in_range(xs[i - 1], xs[j]);
        let dm = delta_map(xs[i - 1], xs[j]);
        let s = if (i - 1) % 2 == 1 { -1int } else { 1int };
        lemma_in_range_ops(dm, dm, s);
        lemma_in_range_ops(cycle_map(xs, (i - 1) as nat), map_scale(dm, s), 1);
    }
}

/// Every key of a list of terms is a product of Deltas of points from 1 to 16.
pub open spec fn terms_in_range(t: TermSeq) -> bool {
    forall|i: int| 0 <= i < t.len() ==> delta_key_in_range((#[trigger] t[i]).0)
}

/// The sum of terms whose keys are products of Deltas of points from 1 to 16
/// is a sum of such products.
pub proof fn lemma_accumulate_in_range(acc: SumMap, t: TermSeq)
    requires
        delta_sum_in_range(acc),
        terms_in_range(t),
        accumulate(acc, t) is Some,
    ensures
        delta_sum_in_range(accumulate(acc, t)->0),
    decreases t.len(),
{
    if t.len() > 0 {
        assert(terms_in_range(t.drop_last())) by {
            assert forall|i: int| 0 <= i < t.drop_last().len() implies delta_key_in_range((#[trigger] t.drop_last()[i]).0) by {
                assert(t.drop_last()[i] == t[i]);
            }
        }
        lemma_accumulate_in_range(acc, t.drop_last());
        let m = accumulate(acc, t.drop_last())->0;
        let out = accumulate(acc, t)->0;
        assert(delta_key_in_range(t[t.len() - 1].0));
        assert forall|w: Word| #[trigger] out.contains_key(w) implies delta_key_in_range(w) by {
            if w != t.last().0 {
                assert(m.contains_key(w));
            }
        }
    }
}

/// The products of terms whose keys are products of Deltas of points from
/// 1 to 16 have such keys.
pub proof fn lemma_product_in_range(lt: TermSeq, rt: TermSeq)
    requires
        terms_in_range(lt),
        terms_in_range(rt),
    ensures
        terms_in_range(product_terms(lt, rt)),
    decreases lt.len(),
{
    if lt.len() > 0 {
        assert(terms_in_range(lt.drop_last())) by {
            assert forall|i: int| 0 <= i < lt.drop_last().len() implies delta_key_in_range((#[trigger] lt.drop_last()[i]).0) by {
                assert(lt.drop_last()[i] == lt[i]);
            }
        }
        lemma_product_in_range(lt.drop_last(), rt);
        let head = product_terms(lt.drop_last(), rt);
        let row = row_terms(lt.last(), rt);
        let all = product_terms(lt, rt);
        assert(delta_key_in_range(lt[lt.len() - 1].0));
        assert forall|i: int| 0 <= i < all.len() implies delta_key_in_range((#[trigger] all[i]).0) by {
            if i < head.len() {
                assert(all[i] == head[i]);
            } else {
                let j = i - head.len();
                assert(all[i] == row[j]);
                assert(delta_key_in_range(rt[j].0));
                let k = lt.last().0 + rt[j].0;
                assert forall|x: int| 0 <= x < k.len() implies 0 <= #[trigger] k[x] <= 0xffff && 1 <= delta_points(k[x]).0 <= 16 && 1 <= delta_points(k[x]).1 <= 16 by {
                    if x < lt.last().0.len() {
                        assert(k[x] == lt.last().0[x]);
                    } else {
                        assert(k[x] == rt[j].0[x - lt.last().0.len()]);
                    }
                }
            }
        }
    }
}

/// The tensor product of two sums, with what it says of the Deltas of the result.
fn tensor(lhs: DeltaExpr, rhs: DeltaExpr) -> (r: Result<DeltaExpr, ArithmeticError>)
    requires
        lhs.wf(),
        rhs.wf(),
    ensures
        result_view(r) == tensor_map(lhs@, rhs@),
        r is Ok ==> r->Ok_0.wf() && r->Ok_0.labels() == Map::<Seq<int>, int>::empty(),
        r is Ok && delta_sum_in_range(lhs@) && delta_sum_in_range(rhs@) ==> delta_sum_in_range(r->Ok_0@),
{
    let ghost lt = lhs.terms();
    let ghost rt = rhs.terms();
    proof {
        lhs.lemma_view();
        rhs.lemma_view();
        lhs.lemma_terms_of_view(sorted_terms(lhs@));
        rhs.lemma_terms_of_view(sorted_terms(rhs@));
        if delta_sum_in_range(lhs@) && delta_sum_in_range(rhs@) {
            assert(terms_in_range(lt)) by {
                assert forall|i: int| 0 <= i < lt.len() implies delta_key_in_range((#[trigger] lt[i]).0) by {
                    assert(lhs@.contains_key(lt[i].0));
                }
            }
            assert(terms_in_range(rt)) by {
                assert forall|i: int| 0 <= i < rt.len() implies delta_key_in_range((#[trigger] rt[i]).0) by {
                    assert(rhs@.contains_key(rt[i].0));
                }
            }
            lemma_product_in_range(lt, rt);
            if accumulate(Map::empty(), product_terms(lt, rt)) is Some {
                lemma_accumulate_in_range(Map::empty(), product_terms(lt, rt));
            }
        }
    }
    tensor_product(lhs, rhs)
}

/// The sum of two sums without labels.
fn plus(a: DeltaExpr, b: DeltaExpr) -> (r: Result<DeltaExpr, ArithmeticError>)
    requires
        a.wf(),
        b.wf(),
        a.labels() == Map::<Seq<int>, int>::empty(),
        b.labels() == Map::<Seq<int>, int>::empty(),
    ensures
        result_view(r) == checked_sum(a@, b@),
        r is Ok ==> r->Ok_0.wf() && r->Ok_0.labels() == Map::<Seq<int>, int>::empty(),
        r is Ok && delta_sum_in_range(a@) && delta_sum_in_range(b@) ==> delta_sum_in_range(r->Ok_0@),
{
    proof {
        let z = Map::<Seq<int>, int>::empty();
        assert(map_add(z, z) =~= z);
        if delta_sum_in_range(a@) && delta_sum_in_range(b@) {
            lemma_in_range_ops(a@, b@, 1);
        }
    }
    a.add(b)
}

/// The sum at a node of a QLi.
fn qli_node_func(p: &[Point]) -> (r: DeltaExpr)
    requires
        p@.len() == 4,
        points_ok(p@),
    ensures
        r.wf(),
        r.labels() == Map::<Seq<int>, int>::empty(),
        r@ == node_map(p@),
        points_in_gamma_range(p@) ==> delta_sum_in_range(r@),
{
    proof {
        assert(point_ok(p@[0].x) && point_ok(p@[1].x) && point_ok(p@[2].x) && point_ok(p@[3].x));
        if points_in_gamma_range(p@) {
            assert(point_in_gamma_range(p@[0].x) && point_in_gamma_range(p@[1].x)
                && point_in_gamma_range(p@[2].x) && point_in_gamma_range(p@[3].x));
            lemma_cross_ratio_in_range(p@[0].x, p@[2].x, p@[1].x, p@[3].x);
            lemma_cross_ratio_in_range(p@[1].x, p@[3].x, p@[2].x, p@[0].x);
            lemma_in_range_ops(
                cross_ratio_map(p@[1].x, p@[3].x, p@[2].x, p@[0].x),
                cross_ratio_map(p@[1].x, p@[3].x, p@[2].x, p@[0].x),
                -1,
            );
        }
    }
    if p[0].odd {
        neg_cross_ratio(p[0].x, p[1].x, p[2].x, p[3].x)
    } else {
        let c = neg_cross_ratio(p[1].x, p[2].x, p[3].x, p[0].x);
        proof {
            lemma_bounded_ops(c@, c@, 4, 4);
            assert(map_scale(Map::<Seq<int>, int>::empty(), -1) =~= Map::<Seq<int>, int>::empty());
        }
        c.neg().unwrap()
    }
}

/// The points of a list without the two that follow the point at `i`.
fn make_foundation(points: &[Point], i: usize) -> (r: Vec<Point>)
    requires
        i + 3 <= points@.len(),
    ensures
        r@ == foundation(points@, i as int),
{
    let n = points.len();
    let mut r: Vec<Point> = Vec::new();
    let mut j: usize = 0;
    assert(r@ =~= points@.subrange(0, 0));
    while j < i + 1
        invariant
            j <= i + 1,
            n == points@.len(),
            i + 3 <= points@.len(),
            r@ == points@.subrange(0, j as int),
        decreases i + 1 - j,
    {
        r.push(points[j]);
        assert(r@ =~= points@.subrange(0, j + 1));
        j += 1;
    }
    let mut k: usize = i + 3;
    assert(points@.subrange(i + 3, k as int) =~= Seq::<Point>::empty());
    assert(r@ =~= points@.subrange(0, i + 1) + points@.subrange(i + 3, k as int));
    while k < points.len()
        invariant
            i + 3 <= k <= points@.len(),
            r@ == points@.subrange(0, i + 1) + points@.subrange(i + 3, k as int),
        decreases points@.len() - k,
    {
        r.push(points[k]);
        assert(r@ =~= points@.subrange(0, i + 1) + points@.subrange(i + 3, k + 1));
        k += 1;
    }
    r
}

/// The points of a list of tagged points.
fn point_xs(points: &[Point]) -> (r: Vec<X>)
    ensures
        r@ == xs_of(points@),
{
    let mut r: Vec<X> = Vec::new();
    let mut i: usize = 0;
    while i < points.len()
        invariant
            i <= points@.len(),
            r@ == xs_of(points@).take(i as int),
        decreases points@.len() - i,
    {
        r.push(points[i].x);
        assert(r@ =~= xs_of(points@).take(i + 1));
        i += 1;
    }
    assert(xs_of(points@).take(i as int) =~= xs_of(points@));
    r
}

/// The sum over the places of a QLi of more than four points.
fn subsums(weight: i32, points: &[Point]) -> (r: Result<DeltaExpr, PolylogError>)
    requires
        qli_valid(weight as int, points@.len() as int),
        points@.len() > 4,
        points@.len() <= i32::MAX,
        points_ok(points@),
    ensures
        match subsums_map(weight as int, points@, (points@.len() - 3) as nat) {
            Ok(m) => r is Ok && r->Ok_0.wf() && r->Ok_0@ == m && r->Ok_0.labels() == Map::<
                Seq<int>,
                int,
            >::empty() && (points_in_gamma_range(points@) ==> delta_sum_in_range(m)),
            Err(e) => r is Err && r->Err_0 == PolylogError::Arithmetic(e),
        },
    decreases weight, 0nat,
{
    let n = points.len();
    let mut ret = DeltaExpr::zero();
    let mut i: usize = 0;
    while i < n - 3
        invariant
            i <= n - 3,
            n == points@.len(),
            n > 4,
            n <= i32::MAX,
            qli_valid(weight as int, n as int),
            points_ok(points@),
            ret.wf(),
            ret.labels() == Map::<Seq<int>, int>::empty(),
            subsums_map(weight as int, points@, i as nat) == Ok::<SumMap, ArithmeticError>(ret@),
            points_in_gamma_range(points@) ==> delta_sum_in_range(ret@),
        decreases n - 3 - i,
    {
        let four = vstd::slice::slice_subrange(points, i, i + 4);
        let rest = make_foundation(points, i);
        proof {
            assert(points_ok(four@)) by {
                assert forall|j: int| 0 <= j < four@.len() implies point_ok(#[trigger] four@[j].x) by {
                    assert(four@[j] == points@[i + j]);
                }
            }
            assert(points_ok(rest@)) by {
                assert forall|j: int| 0 <= j < rest@.len() implies point_ok(#[trigger] rest@[j].x) by {
                    if j < i + 1 {
                        assert(rest@[j] == points@[j]);
                    } else {
                        assert(rest@[j] == points@[j + 2]);
                    }
                }
            }
            if points_in_gamma_range(points@) {
                assert(points_in_gamma_range(four@)) by {
                    assert forall|j: int| 0 <= j < four@.len() implies point_in_gamma_range(#[trigger] four@[j].x) by {
                        assert(four@[j] == points@[i + j]);
                    }
                }
                assert(points_in_gamma_range(rest@)) by {
                    assert forall|j: int| 0 <= j < rest@.len() implies point_in_gamma_range(#[trigger] rest@[j].x) by {
                        if j < i + 1 {
                            assert(rest@[j] == points@[j]);
                        } else {
                            assert(rest@[j] == points@[j + 2]);
                        }
                    }
                }
            }
            assert(rest@.len() == n - 2);
        }
        let node = qli_node_func(four);
        let step: Result<DeltaExpr, ArithmeticError> = match QLi_impl(weight - 1, rest.as_slice()) {
            Err(e) => match e {
                PolylogError::Arithmetic(a) => Err(a),
                _ => Err(ArithmeticError::Overflow),
            },
            Ok(q) => match tensor(node, q) {
                Err(e) => Err(e),
                Ok(t) => plus(ret, t),
            },
        };
        match step {
            Err(e) => {
                proof {
                    lemma_subsums_error(weight as int, points@, (i + 1) as nat, (n - 3) as nat);
                }
                return Err(PolylogError::Arithmetic(e));
            },
            Ok(sum) => {
                ret = sum;
            },
        }
        i += 1;
    }
    Ok(ret)
}

/// Once the sum over the places has failed, it stays failed.
proof fn lemma_subsums_error(weight: int, p: Seq<Point>, i: nat, n: nat)
    requires
        i <= n,
        n + 3 <= p.len(),
        weight > 0,
        subsums_map(weight, p, i) is Err,
    ensures
        subsums_map(weight, p, n) == subsums_map(weight, p, i),
    decreases n - i,
{
    if i < n {
        lemma_subsums_error(weight, p, i, (n - 1) as nat);
    }
}

/// The QLi of the given weight of tagged points.
#[verifier::rlimit(60)]
#[allow(non_snake_case)]
fn QLi_impl(weight: i32, points: &[Point]) -> (r: Result<DeltaExpr, PolylogError>)
    requires
        points@.len() <= i32::MAX,
        points_ok(points@),
    ensures
        points@.len() < 4 || points@.len() % 2 != 0 ==> r is Err && r->Err_0
            == PolylogError::BadPointCount,
        points@.len() >= 4 && points@.len() % 2 == 0 && weight < min_weight(points@.len() as int)
            ==> r is Err && r->Err_0 == PolylogError::WeightTooLow,
        qli_valid(weight as int, points@.len() as int) ==> match qli_map(weight as int, points@) {
            Ok(m) => r is Ok && r->Ok_0.wf() && r->Ok_0@ == m && r->Ok_0.labels() == Map::<
                Seq<int>,
                int,
            >::empty() && (points_in_gamma_range(points@) ==> delta_sum_in_range(m)),
            Err(e) => r is Err && r->Err_0 == PolylogError::Arithmetic(e),
        },
    decreases weight, 1nat,
{
    let n = points.len();
    if n < 4 || n % 2 != 0 {
        return Err(PolylogError::BadPointCount);
    }
    let min_w: i32 = ((n - 2) / 2) as i32;
    if weight < min_w {
        return Err(PolylogError::WeightTooLow);
    }
    if weight == min_w {
        if n == 4 {
            let four = vstd::slice::slice_subrange(points, 0, 4);
            assert(four@ =~= points@);
            Ok(qli_node_func(four))
        } else {
            subsums(weight, points)
        }
    } else {
        let cross_ratio_args = point_xs(points);
        proof {
            assert(points_of(cross_ratio_args@) =~= xs_of(points@));
            assert(cycle_representable(xs_of(points@))) by {
                assert forall|i: int| 0 <= i < xs_of(points@).len() implies Delta::representable(
                    #[trigger] xs_of(points@)[i],
                    xs_of(points@)[(i + 1) % (xs_of(points@).len() as int)],
                ) by {
                    let j = (i + 1) % (xs_of(points@).len() as int);
                    assert(point_ok(points@[i].x));
                    assert(point_ok(points@[j].x));
                }
            }
            if points_in_gamma_range(points@) {
                assert forall|j: int| 0 <= j < xs_of(points@).len() implies point_in_gamma_range(#[trigger] xs_of(points@)[j]) by {
                    assert(point_in_gamma_range(points@[j].x));
                }
                lemma_cycle_in_range(xs_of(points@), points@.len());
            }
        }
        let cycle = cross_ratio_vec(cross_ratio_args.as_slice());
        let lower = match QLi_impl(weight - 1, points) {
            Err(e) => {
                return Err(e);
            },
            Ok(q) => q,
        };
        let ret = match tensor(cycle, lower) {
            Err(e) => {
                return Err(PolylogError::Arithmetic(e));
            },
            Ok(t) => t,
        };
        if n > 4 {
            let s = match subsums(weight, points) {
                Err(e) => {
                    return Err(e);
                },
                Ok(s) => s,
            };
            match plus(ret, s) {
                Err(e) => Err(PolylogError::Arithmetic(e)),
                Ok(sum) => Ok(sum),
            }
        } else {
            Ok(ret)
        }
    }
}

/// The node writes the word letter by letter.
pub open spec fn is_word_node(node: FormatNode, name: Seq<char>) -> bool {
    node matches FormatNode::Concatenation(c) && c.children@.len() == name.len() && forall|i: int|
        0 <= i < name.len() ==> is_literal(#[trigger] c.children@[i], seq![name[i]])
}

/// The node that writes a word letter by letter.
pub fn word_node(name: &str) -> (r: FormatNode)
    ensures
        is_word_node(r, name@),
{
    let mut letters: Vec<FormatNode> = Vec::new();
    let n = name.unicode_len();
    let mut i: usize = 0;
    while i < n
        invariant
            i <= n,
            n == name@.len(),
            letters@.len() == i,
            forall|j: int| 0 <= j < i ==> is_literal(#[trigger] letters@[j], seq![name@[j]]),
        decreases n - i,
    {
        let mut text = String::new();
        push_char(&mut text, name.get_char(i));
        assert(text@ =~= seq![name@[i as int]]);
        letters.push(lit(text));
        i += 1;
    }
    let ghost ls = letters@;
    let r = concat(letters);
    proof {
        let c = r->Concatenation_0;
        assert forall|j: int| 0 <= j < name@.len() implies is_literal(#[trigger] c.children@[j], seq![name@[j]]) by {
            assert(ls[j].shown_as(c.children@[j]));
        }
    }
    r
}

/// The node is the label of a QLi: the name as an operator, the weight as
/// a subscript, and the points as a list in parentheses.
pub open spec fn is_qli_label(node: FormatNode, weight: int, xs: Seq<X>) -> bool {
    node matches FormatNode::Concatenation(c) && c.children@.len() == 5 && (c.children@[0] matches FormatNode::OperatorName(
        o,
    ) && is_word_node(*o.child, "QLi"@)) && (c.children@[1] matches FormatNode::Subscript(s)
        && is_literal(*s.child, decimal_text(weight))) && is_literal(c.children@[2], "("@) && (
    c.children@[3] matches FormatNode::CommaSeparatedList(l) && all_shown(xs, l.children@))
        && is_literal(c.children@[4], ")"@)
}

/// The text is the label of a QLi under the configuration.
pub open spec fn is_qli_label_text(label: Seq<char>, weight: int, xs: Seq<X>, config: FormattingConfig) -> bool {
    exists|node: FormatNode| #[trigger]
        is_qli_label(node, weight, xs) && rendered(node, config) == Ok::<Seq<char>, FormatError>(
            label,
        )
}

/// There is a label node whose rendering fails with the error.
pub open spec fn qli_label_fails(e: FormatError, weight: int, xs: Seq<X>, config: FormattingConfig) -> bool {
    exists|node: FormatNode| #[trigger]
        is_qli_label(node, weight, xs) && rendered(node, config) == Err::<Seq<char>, FormatError>(e)
}

/// The label of a QLi.
pub fn qli_label(weight: i32, xs: Vec<X>, config: &FormattingConfig) -> (r: Result<String, FormatError>)
    ensures
        match r {
            Ok(label) => is_qli_label_text(label@, weight as int, xs@, *config),
            Err(e) => qli_label_fails(e, weight as int, xs@, *config),
        },
{
    let ghost points = xs@;
    let name = op(word_node("QLi"));
    let index = crate::math_format::mfmt::sub(lit(weight));
    let open = lit("(");
    let list = comma_list(xs);
    let close = lit(")");
    let parts = vec![name, index, open, list, close];
    let ghost ps = parts@;
    let node = concat(parts);
    proof {
        let c = node->Concatenation_0;
        assert(ps[0].shown_as(c.children@[0]));
        assert(ps[1].shown_as(c.children@[1]));
        assert(ps[2].shown_as(c.children@[2]));
        assert(ps[3].shown_as(c.children@[3]));
        assert(ps[4].shown_as(c.children@[4]));
        assert(is_qli_label(node, weight as int, points));
    }
    node.render(config)
}

/// The tagged points of a list of points: the first point is odd, the
/// second even, and so on.
pub open spec fn tagged(xs: Seq<X>) -> Seq<Point> {
    Seq::new(xs.len(), |i: int| Point { x: xs[i], odd: (i + 1) % 2 == 1 })
}

/// The QLi symbol of the given weight of an even number of points, at least
/// four, labelled with its name.
#[allow(non_snake_case)]
pub fn QLi<A: XArg>(weight: i32, points: &[A], config: &FormattingConfig) -> (r: Result<
    DeltaExpr,
    PolylogError,
>)
    requires
        points@.len() <= i32::MAX,
        forall|i: int| 0 <= i < points@.len() ==> point_ok(#[trigger] points@[i].x()),
    ensures
        r is Ok ==> r->Ok_0.wf(),
        points@.len() < 4 || points@.len() % 2 != 0 ==> r is Err && r->Err_0
            == PolylogError::BadPointCount,
        points@.len() >= 4 && points@.len() % 2 == 0 && weight < min_weight(points@.len() as int)
            ==> r is Err && r->Err_0 == PolylogError::WeightTooLow,
        qli_valid(weight as int, points@.len() as int) ==> match qli_map(
            weight as int,
            tagged(points_of(points@)),
        ) {
            Err(e) => r is Err && r->Err_0 == PolylogError::Arithmetic(e),
            Ok(m) => match r {
                Ok(p) => p@ == m && (exists|label: Seq<char>| #[trigger]
                    is_qli_label_text(label, weight as int, points_of(points@), *config)
                        && p.labels() == single_map(char_codes(label), 1)) && ((forall|i: int|
                    0 <= i < points@.len() ==> point_in_gamma_range(#[trigger] points@[i].x()))
                    ==> delta_sum_in_range(m)),
                Err(e) => e matches PolylogError::Format(f) && qli_label_fails(
                    f,
                    weight as int,
                    points_of(points@),
                    *config,
                ),
            },
        },
{
    let ghost xs = points_of(points@);
    let mut tagged_points: Vec<Point> = Vec::new();
    let mut plain: Vec<X> = Vec::new();
    let n = points.len();
    let mut i: usize = 0;
    while i < n
        invariant
            i <= n,
            n == points@.len(),
            xs == points_of(points@),
            tagged_points@ == tagged(xs).take(i as int),
            plain@ == xs.take(i as int),
        decreases n - i,
    {
        let x = points[i].as_x();
        tagged_points.push(Point { x, odd: (i + 1) % 2 == 1 });
        plain.push(x);
        assert(tagged_points@ =~= tagged(xs).take(i + 1));
        assert(plain@ =~= xs.take(i + 1));
        i += 1;
    }
    proof {
        assert(tagged(xs).take(n as int) =~= tagged(xs));
        assert(xs.take(n as int) =~= xs);
        assert(points_ok(tagged_points@)) by {
            assert forall|j: int| 0 <= j < tagged_points@.len() implies point_ok(#[trigger] tagged_points@[j].x) by {
                assert(point_ok(points@[j].x()));
            }
        }
        if forall|i: int| 0 <= i < points@.len() ==> point_in_gamma_range(#[trigger] points@[i].x()) {
            assert(points_in_gamma_range(tagged_points@)) by {
                assert forall|j: int| 0 <= j < tagged_points@.len() implies point_in_gamma_range(#[trigger] tagged_points@[j].x) by {
                    assert(point_in_gamma_range(points@[j].x()));
                }
            }
        }
    }
    let sum = match QLi_impl(weight, tagged_points.as_slice()) {
        Err(e) => {
            return Err(e);
        },
        Ok(s) => s,
    };
    let label = match qli_label(weight, plain, config) {
        Err(e) => {
            return Err(PolylogError::Format(e));
        },
        Ok(l) => l,
    };
    let ghost text = label@;
    match sum.annotate(label) {
        Err(e) => Err(PolylogError::Arithmetic(e)),
        Ok(p) => {
            proof {
                assert(is_qli_label_text(text, weight as int, xs, *config));
            }
            Ok(p)
        },
    }
}

impl PolylogError {
    /// What went wrong, in words.
    pub open spec fn message_text(self) -> Seq<char> {
        match self {
            PolylogError::BadPointCount => "Bad number of QLi points"@,
            PolylogError::WeightTooLow => "Weight too low"@,
            PolylogError::Arithmetic(e) => e.message_text(),
            PolylogError::Format(e) => e.message_text(),
        }
    }

    /// What went wrong, in words.
    pub fn message(&self) -> (r: String)
        ensures
            r@ == self.message_text(),
    {
        match self {
            PolylogError::BadPointCount => "Bad number of QLi points".to_owned(),
            PolylogError::WeightTooLow => "Weight too low".to_owned(),
            PolylogError::Arithmetic(e) => e.message(),
            PolylogError::Format(e) => e.message(),
        }
    }
}

} // verus!
