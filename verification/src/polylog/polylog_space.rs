//! Spaces of polylogarithm functions.

use vstd::prelude::*;
use crate::base::util::{combinations_of, combinations_spec, from_vec_ref, targets};
use crate::math::delta::DeltaExpr;
use crate::math::delta_ratio::points_of;
use crate::math::linear::ArithmeticError;
use crate::math::x::XArg;
use crate::math_format::FormattingConfig;
use crate::polylog::qli::{PolylogError, QLi, point_ok, qli_label_fails, qli_map, qli_valid, tagged};
use crate::math::x::X;

verus! {

/// The QLi of the given weight of four points fails with the error.
pub open spec fn four_fails(e: PolylogError, weight: int, four: Seq<X>, config: FormattingConfig) -> bool {
    match e {
        PolylogError::WeightTooLow => weight < 1,
        PolylogError::Arithmetic(a) => weight >= 1 && qli_map(weight, tagged(four)) == Err::<
            Map<Seq<int>, int>,
            ArithmeticError,
        >(a),
        PolylogError::Format(f) => weight >= 1 && qli_map(weight, tagged(four)) is Ok
            && qli_label_fails(f, weight, four, config),
        PolylogError::BadPointCount => false,
    }
}

/// The QLi functions of the given weight of every four of the points, in
/// the order in which the fours are chosen: the first failure ends the work.
#[allow(non_snake_case)]
pub fn CB_naive_via_QLi_fours<A: XArg>(weight: i32, points: &[A], config: &FormattingConfig) -> (r:
    Result<Vec<DeltaExpr>, PolylogError>)
    requires
        forall|i: int| 0 <= i < points@.len() ==> point_ok(#[trigger] points@[i].x()),
    ensures
        match r {
            Ok(v) => v@.len() == combinations_spec(points@, 4).len() && forall|i: int|
                0 <= i < v@.len() ==> (#[trigger] v@[i]).wf() && qli_map(
                    weight as int,
                    tagged(points_of(combinations_spec(points@, 4)[i])),
                ) == Ok::<Map<Seq<int>, int>, ArithmeticError>(v@[i]@),
            Err(e) => exists|i: int|
                0 <= i < combinations_spec(points@, 4).len() && #[trigger] four_fails(
                    e,
                    weight as int,
                    points_of(combinations_spec(points@, 4)[i]),
                    *config,
                ),
        },
        weight < 1 && combinations_spec(points@, 4).len() > 0 ==> r is Err && r->Err_0
            == PolylogError::WeightTooLow,
{
    let ghost all = combinations_spec(points@, 4);
    if points.len() < 4 {
        assert(all.len() == 0);
        return Ok(Vec::new());
    }
    let mut fours = combinations_of(points, 4);
    let ghost picked = fours@;
    let n = fours.len();
    proof {
        assert forall|i: int| 0 <= i < all.len() implies (#[trigger] all[i]).len() == 4 && forall|j: int|
            0 <= j < 4 ==> point_ok(#[trigger] all[i][j].x()) by {
            lemma_combination(points@, 4, i);
        }
    }
    // The fours are taken from the last to the first and put back in order.
    let mut stack: Vec<Vec<&A>> = Vec::new();
    loop
        invariant
            fours@.len() <= n,
            n == picked.len(),
            fours@ == picked.take(fours@.len() as int),
            stack@.len() == n - fours@.len(),
            forall|j: int| 0 <= j < stack@.len() ==> #[trigger] stack@[j] == picked[n - 1 - j],
        ensures
            stack@.len() == n,
            forall|j: int| 0 <= j < n ==> #[trigger] stack@[j] == picked[n - 1 - j],
        decreases fours@.len(),
    {
        let ghost k = fours@.len() as int;
        match fours.pop() {
            None => {
                break ;
            },
            Some(f) => {
                assert(picked.take(k)[k - 1] == picked[k - 1]);
                assert(fours@ =~= picked.take(k - 1));
                stack.push(f);
            },
        }
    }
    let mut ret: Vec<DeltaExpr> = Vec::new();
    loop
        invariant
            stack@.len() <= n,
            n == picked.len(),
            n == all.len(),
            all == combinations_spec(points@, 4),
            forall|i: int| 0 <= i < n ==> targets((#[trigger] picked[i])@) == all[i],
            forall|i: int| 0 <= i < all.len() ==> (#[trigger] all[i]).len() == 4 && forall|j: int|
                0 <= j < 4 ==> point_ok(#[trigger] all[i][j].x()),
            forall|j: int| 0 <= j < stack@.len() ==> #[trigger] stack@[j] == picked[n - 1 - j],
            ret@.len() == n - stack@.len(),
            ret@.len() > 0 ==> weight >= 1,
            forall|i: int| 0 <= i < ret@.len() ==> (#[trigger] ret@[i]).wf() && qli_map(
                weight as int,
                tagged(points_of(all[i])),
            ) == Ok::<Map<Seq<int>, int>, ArithmeticError>(ret@[i]@),
        ensures
            ret@.len() == n,
            ret@.len() > 0 ==> weight >= 1,
            forall|i: int| 0 <= i < ret@.len() ==> (#[trigger] ret@[i]).wf() && qli_map(
                weight as int,
                tagged(points_of(all[i])),
            ) == Ok::<Map<Seq<int>, int>, ArithmeticError>(ret@[i]@),
        decreases stack@.len(),
    {
        let ghost k = stack@.len() as int;
        let ghost i = n - k;
        match stack.pop() {
            None => {
                break ;
            },
            Some(f) => {
                let four = from_vec_ref(f);
                proof {
                    assert(f == picked[i]);
                    assert(four@ == all[i]);
                    assert(all[i].len() == 4);
                    assert forall|j: int| 0 <= j < four@.len() implies point_ok(#[trigger] four@[j].x()) by {
                        assert(point_ok(all[i][j].x()));
                    }
                }
                match QLi(weight, four.as_slice(), config) {
                    Err(e) => {
                        proof {
                            assert(four_fails(e, weight as int, points_of(all[i]), *config));
                        }
                        return Err(e);
                    },
                    Ok(q) => {
                        proof {
                            assert(qli_valid(weight as int, 4));
                        }
                        ret.push(q);
                    },
                }
            },
        }
    }
    Ok(ret)
}

/// A way to choose `k` items of a sequence holds `k` items of the sequence.
proof fn lemma_combination<A: XArg>(s: Seq<A>, k: nat, i: int)
    requires
        0 <= i < combinations_spec(s, k).len(),
        forall|j: int| 0 <= j < s.len() ==> point_ok(#[trigger] s[j].x()),
    ensures
        combinations_spec(s, k)[i].len() == k,
        forall|j: int| 0 <= j < k ==> point_ok(#[trigger] combinations_spec(s, k)[i][j].x()),
    decreases s.len(),
{
    if k == 0 {
    } else if s.len() < k {
    } else {
        let rest = s.skip(1);
        assert forall|j: int| 0 <= j < rest.len() implies point_ok(#[trigger] rest[j].x()) by {
            assert(rest[j] == s[j + 1]);
        }
        let with = combinations_spec(rest, (k - 1) as nat);
        let without = combinations_spec(rest, k);
        if i < with.len() {
            lemma_combination(rest, (k - 1) as nat, i);
            let c = combinations_spec(s, k)[i];
            assert(c == seq![s[0]] + with[i]);
            assert forall|j: int| 0 <= j < k implies point_ok(#[trigger] c[j].x()) by {
                if j == 0 {
                    assert(c[0] == s[0]);
                } else {
                    assert(c[j] == with[i][j - 1]);
                }
            }
        } else {
            lemma_combination(rest, k, i - with.len());
            assert(combinations_spec(s, k)[i] == without[i - with.len()]);
        }
    }
}

} // verus!
