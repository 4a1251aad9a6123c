//! Cross-ratios as formal sums of Deltas.

use vstd::prelude::*;
use crate::base::util::neg_one_pow;
use crate::math::delta::{D, Delta, DeltaExpr, delta_map};
use crate::math::terms::{SumMap, Word, coeff, map_add, map_sub, map_scale, bounded, lemma_bounded_ops};
use crate::math::x::{X, XArg};

verus! {

/// The cross-ratio of four points as a sum.
pub open spec fn cross_ratio_map(a: X, b: X, c: X, d: X) -> SumMap {
    map_sub(map_sub(map_add(delta_map(a, b), delta_map(c, d)), delta_map(b, c)), delta_map(d, a))
}

/// The Delta of two points has the coefficient 1 or none.
pub proof fn lemma_delta_bounded(a: X, b: X)
    ensures
        bounded(delta_map(a, b), 1),
{
    assert forall|w: Word| -1 <= #[trigger] coeff(delta_map(a, b), w) <= 1 by {}
}

/// The cross-ratio of four points: the Deltas of the first two and of the
/// last two, minus those of the two in the middle and of the two at the ends.
pub fn cross_ratio<A: XArg, B: XArg, C: XArg, E: XArg>(a: A, b: B, c: C, d: E) -> (r: DeltaExpr)
    requires
        Delta::representable(a.x(), b.x()),
        Delta::representable(c.x(), d.x()),
        Delta::representable(b.x(), c.x()),
        Delta::representable(d.x(), a.x()),
    ensures
        r.wf(),
        r.labels() == Map::<Seq<int>, int>::empty(),
        r@ == cross_ratio_map(a.x(), b.x(), c.x(), d.x()),
        bounded(r@, 4),
{
    let ghost z = Map::<Seq<int>, int>::empty();
    let ghost ab = delta_map(a.x(), b.x());
    let ghost cd = delta_map(c.x(), d.x());
    let ghost bc = delta_map(b.x(), c.x());
    let ghost da = delta_map(d.x(), a.x());
    proof {
        lemma_delta_bounded(a.x(), b.x());
        lemma_delta_bounded(c.x(), d.x());
        lemma_delta_bounded(b.x(), c.x());
        lemma_delta_bounded(d.x(), a.x());
        lemma_bounded_ops(ab, cd, 1, 1);
        lemma_bounded_ops(map_add(ab, cd), bc, 2, 1);
        lemma_bounded_ops(map_sub(map_add(ab, cd), bc), da, 3, 1);
        assert(map_add(z, z) =~= z);
        assert(map_sub(z, z) =~= z);
    }
    let s1 = D(a, b).add(D(c, d)).unwrap();
    let s2 = s1.sub(D(b, c)).unwrap();
    s2.sub(D(d, a)).unwrap()
}

/// One minus the cross-ratio of four points, which is the cross-ratio with
/// the two points in the middle exchanged.
pub fn neg_cross_ratio<A: XArg, B: XArg, C: XArg, E: XArg>(a: A, b: B, c: C, d: E) -> (r: DeltaExpr)
    requires
        Delta::representable(a.x(), c.x()),
        Delta::representable(b.x(), d.x()),
        Delta::representable(c.x(), b.x()),
        Delta::representable(d.x(), a.x()),
    ensures
        r.wf(),
        r.labels() == Map::<Seq<int>, int>::empty(),
        r@ == cross_ratio_map(a.x(), c.x(), b.x(), d.x()),
        bounded(r@, 4),
{
    cross_ratio(a, c, b, d)
}

/// The points that a list of values stands for.
pub open spec fn points_of<A: XArg>(p: Seq<A>) -> Seq<X> {
    Seq::new(p.len(), |i: int| p[i].x())
}

/// The sign of the `i`-th term of an alternating sum.
pub open spec fn alternating_sign(i: int) -> int {
    if i % 2 == 1 {
        -1
    } else {
        1
    }
}

/// The alternating sum of the Deltas of the first `i` pairs of neighbours
/// around a cycle of points.
pub open spec fn cycle_map(xs: Seq<X>, i: nat) -> SumMap
    decreases i,
{
    if i == 0 {
        Map::empty()
    } else {
        map_add(
            cycle_map(xs, (i - 1) as nat),
            map_scale(delta_map(xs[i - 1], xs[(i % xs.len()) as int]), alternating_sign(i - 1)),
        )
    }
}

/// Every point of the cycle can be kept in a Delta with its neighbour.
pub open spec fn cycle_representable(xs: Seq<X>) -> bool {
    forall|i: int| 0 <= i < xs.len() ==> Delta::representable(#[trigger] xs[i], xs[(i + 1) % (xs.len() as int)])
}

/// The cross-ratio of an even number of points around a cycle: the
/// alternating sum of the Deltas of neighbouring points.
pub fn cross_ratio_vec<A: XArg>(p: &[A]) -> (r: DeltaExpr)
    requires
        p@.len() % 2 == 0,
        p@.len() <= i32::MAX,
        cycle_representable(points_of(p@)),
    ensures
        r.wf(),
        r.labels() == Map::<Seq<int>, int>::empty(),
        r@ == cycle_map(points_of(p@), p@.len()),
        bounded(r@, p@.len() as int),
{
    let ghost xs = points_of(p@);
    let ghost z = Map::<Seq<int>, int>::empty();
    let n = p.len();
    let mut ret = DeltaExpr::zero();
    let mut i: usize = 0;
    assert(bounded(ret@, 0)) by {
        assert forall|w: Word| 0 <= #[trigger] coeff(ret@, w) <= 0 by {}
    }
    while i < n
        invariant
            i <= n,
            n == p@.len(),
            n <= i32::MAX,
            xs == points_of(p@),
            cycle_representable(xs),
            ret.wf(),
            ret.labels() == Map::<Seq<int>, int>::empty(),
            ret@ == cycle_map(xs, i as nat),
            bounded(ret@, i as int),
        decreases n - i,
    {
        let j = (i + 1) % n;
        let ghost dm = delta_map(xs[i as int], xs[j as int]);
        proof {
            let z = Map::<Seq<int>, int>::empty();
            assert(bounded(z, 0)) by {
                assert forall|w: Word| 0 <= #[trigger] coeff(z, w) <= 0 by {}
            }
            assert(Delta::representable(xs[i as int], xs[(i + 1) % (xs.len() as int)]));
            lemma_delta_bounded(xs[i as int], xs[j as int]);
            lemma_bounded_ops(dm, z, 1, 0);
            lemma_bounded_ops(ret@, map_scale(dm, alternating_sign(i as int)), i as int, 1);
            assert(map_scale(z, alternating_sign(i as int)) =~= z);
            assert(map_add(z, z) =~= z);
        }
        let term = D(p[i], p[j]).mul(neg_one_pow(i)).unwrap();
        ret = ret.add(term).unwrap();
        i += 1;
    }
    ret
}

} // verus!
