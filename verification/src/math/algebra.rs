//! The tensor product of formal sums.

use vstd::prelude::*;
use crate::math::linear::{ArithmeticError, Linear, LinearMonom, TensorProduct, result_view,
    sum_outcome, term_list};
use crate::math::terms::{TermSeq, SumMap, accumulate};

verus! {

/// The products of one term with each term of a list, in the order of the list.
pub open spec fn row_terms(l: (Seq<int>, int), rt: TermSeq) -> TermSeq {
    Seq::new(rt.len(), |j: int| (l.0 + rt[j].0, l.1 * rt[j].1))
}

/// The products of each term of `lt` with each term of `rt`: the monomials
/// multiplied, the coefficients multiplied, in the order of `lt` and within
/// that of `rt`.
pub open spec fn product_terms(lt: TermSeq, rt: TermSeq) -> TermSeq
    decreases lt.len(),
{
    if lt.len() == 0 {
        Seq::empty()
    } else {
        product_terms(lt.drop_last(), rt) + row_terms(lt.last(), rt)
    }
}

/// A sum that has failed fails with more terms to add.
pub proof fn lemma_accumulate_append_none(acc: SumMap, a: TermSeq, b: TermSeq)
    requires
        accumulate(acc, a) is None,
    ensures
        accumulate(acc, a + b) is None,
    decreases b.len(),
{
    if b.len() == 0 {
        assert(a + b =~= a);
    } else {
        assert((a + b).drop_last() =~= a + b.drop_last());
        lemma_accumulate_append_none(acc, a, b.drop_last());
    }
}

/// The products with a beginning of `lt` are a beginning of the products with `lt`.
pub proof fn lemma_product_prefix(lt: TermSeq, rt: TermSeq, i: int) -> (tail: TermSeq)
    requires
        0 <= i <= lt.len(),
    ensures
        product_terms(lt, rt) == product_terms(lt.take(i), rt) + tail,
    decreases lt.len() - i,
{
    if i == lt.len() {
        assert(lt.take(i) =~= lt);
        assert(product_terms(lt, rt) + Seq::<(Seq<int>, int)>::empty() =~= product_terms(lt, rt));
        Seq::empty()
    } else {
        let rest = lemma_product_prefix(lt, rt, i + 1);
        assert(lt.take(i + 1).drop_last() =~= lt.take(i));
        assert(lt.take(i + 1).last() == lt[i]);
        let tail = row_terms(lt[i], rt) + rest;
        assert(product_terms(lt.take(i), rt) + tail =~= (product_terms(lt.take(i), rt) + row_terms(
            lt[i],
            rt,
        )) + rest);
        tail
    }
}

/// The tensor product of two sums: every term of the one multiplied with
/// every term of the other, the products added up in the order of the terms
/// of `lhs` and within that of `rhs`. The labels are dropped.
pub fn tensor_product<M: LinearMonom + TensorProduct>(lhs: Linear<M>, rhs: Linear<M>) -> (r: Result<
    Linear<M>,
    ArithmeticError,
>)
    requires
        lhs.wf(),
        rhs.wf(),
    ensures
        result_view(r) == sum_outcome(
            accumulate(Map::empty(), product_terms(lhs.terms(), rhs.terms())),
        ),
        r is Ok ==> r->Ok_0.wf() && r->Ok_0.labels() == Map::<Seq<int>, int>::empty(),
{
    let ghost lt = lhs.terms();
    let ghost rt = rhs.terms();
    let ghost all = product_terms(lt, rt);
    let ls = lhs.into_iter();
    let rs = rhs.into_iter();
    let mut ret = Linear::<M>::zero();
    let mut i: usize = 0;
    assert(lt.take(0) =~= Seq::<(Seq<int>, int)>::empty());
    while i < ls.len()
        invariant
            i <= ls@.len(),
            term_list(ls@) == lt,
            term_list(rs@) == rt,
            lt == lhs.terms(),
            rt == rhs.terms(),
            ret.wf(),
            ret.labels() == Map::<Seq<int>, int>::empty(),
            accumulate(Map::empty(), product_terms(lt.take(i as int), rt)) == Some(ret@),
        decreases ls@.len() - i,
    {
        let ghost done = product_terms(lt.take(i as int), rt);
        let ghost row = row_terms(lt[i as int], rt);
        let mut j: usize = 0;
        proof {
            assert(row.take(0) =~= Seq::<(Seq<int>, int)>::empty());
            assert(done + row.take(0) =~= done);
            assert(lt.take(i + 1).drop_last() =~= lt.take(i as int));
            assert(lt.take(i + 1).last() == lt[i as int]);
        }
        while j < rs.len()
            invariant
                i < ls@.len(),
                j <= rs@.len(),
                term_list(ls@) == lt,
                term_list(rs@) == rt,
                lt == lhs.terms(),
                rt == rhs.terms(),
                done == product_terms(lt.take(i as int), rt),
                row == row_terms(lt[i as int], rt),
                product_terms(lt.take(i + 1), rt) == done + row,
                ret.wf(),
                ret.labels() == Map::<Seq<int>, int>::empty(),
                accumulate(Map::empty(), done + row.take(j as int)) == Some(ret@),
            decreases rs@.len() - j,
        {
            let m = ls[i].0.tensor_product(&rs[j].0);
            proof {
                assert((done + row.take(j + 1)).drop_last() =~= done + row.take(j as int));
                assert((done + row.take(j + 1)).last() == row[j as int]);
                assert(lt[i as int] == (ls@[i as int].0.key(), ls@[i as int].1 as int));
                assert(rt[j as int] == (rs@[j as int].0.key(), rs@[j as int].1 as int));
            }
            let step = match ls[i].1.checked_mul(rs[j].1) {
                None => Err(ArithmeticError::Overflow),
                Some(c) => ret.add_to(m, c),
            };
            match step {
                Err(e) => {
                    proof {
                        let later = row.skip(j + 1);
                        assert(done + row =~= (done + row.take(j + 1)) + later);
                        lemma_accumulate_append_none(Map::empty(), done + row.take(j + 1), later);
                        let tail = lemma_product_prefix(lt, rt, i + 1);
                        lemma_accumulate_append_none(Map::empty(), done + row, tail);
                    }
                    return Err(ArithmeticError::Overflow);
                },
                Ok(_) => {},
            }
            j += 1;
        }
        assert(row.take(j as int) =~= row);
        i += 1;
    }
    assert(lt.take(i as int) =~= lt);
    Ok(ret)
}

} // verus!
