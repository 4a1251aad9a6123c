//! Spaces of formal sums as matrices.
//!
//! The rank of a space is the rank of the matrix of its sums. The sums are
//! prepared one by one, which can be done side by side; then they are put
//! into one matrix, one after the other.

use vstd::prelude::*;
use crate::math::expr_matrix_builder::{ExprMatrixBuilder, SparseSeq, add_unique, all_triplets,
    columns_of, dedup, sparse_row};
use crate::math::linalg::{Matrix, Triplet, cols_extent, rows_extent};
use crate::math::linear::{Linear, LinearMonom};
use crate::math::terms::{TermSeq, Word};

verus! {

/// The lists of terms of a sequence of sums.
pub open spec fn terms_of<B: LinearMonom>(space: Seq<Linear<B>>) -> Seq<TermSeq> {
    Seq::new(space.len(), |i: int| space[i].terms())
}

/// The columns and the distinct rows of the first `i` sums of a space.
pub open spec fn space_rows(space: Seq<TermSeq>, i: nat) -> (Seq<Word>, Seq<SparseSeq>)
    decreases i,
{
    if i == 0 || i > space.len() {
        (Seq::empty(), Seq::empty())
    } else {
        let before = space_rows(space, (i - 1) as nat);
        let row = sparse_row(before.0, space[i - 1]);
        (row.0, add_unique(before.1, row.1))
    }
}

/// Whether the first `i` sums of a space fit into a matrix: before each sum
/// is added, its terms and the columns together, and the rows with one more,
/// are in the range of the indices of the matrix.
pub open spec fn space_fits(space: Seq<TermSeq>, i: nat) -> bool
    decreases i,
{
    if i == 0 || i > space.len() {
        true
    } else {
        space_fits(space, (i - 1) as nat) && space_rows(space, (i - 1) as nat).0.len() + space[i
            - 1].len() <= i32::MAX && space_rows(space, (i - 1) as nat).1.len() < i32::MAX
    }
}

/// The matrix of a space of prepared sums: a row for each distinct sum, a
/// column for each distinct column of monomial. `None` if the space does
/// not fit into a matrix.
pub fn space_matrix<B: LinearMonom>(space_prepared: Vec<Linear<B>>) -> (r: Option<Matrix>)
    ensures
        r is Some <==> space_fits(terms_of(space_prepared@), space_prepared@.len()),
        match r {
            Some(m) => m.entries() == all_triplets(
                dedup(
                    columns_of(
                        space_rows(terms_of(space_prepared@), space_prepared@.len()).1,
                        space_rows(terms_of(space_prepared@), space_prepared@.len()).0.len(),
                    ),
                ),
            ) && m.rows() == rows_extent(m.entries()) && m.cols() == cols_extent(m.entries()),
            None => true,
        },
{
    let ghost all = terms_of(space_prepared@);
    let ghost given = space_prepared@;
    let n = space_prepared.len();
    // The sums are taken from the last to the first and put back in order.
    let mut rest = space_prepared;
    let mut stack: Vec<Linear<B>> = Vec::new();
    loop
        invariant
            rest@.len() <= n,
            n == given.len(),
            rest@ == given.take(rest@.len() as int),
            stack@.len() == n - rest@.len(),
            forall|j: int| 0 <= j < stack@.len() ==> #[trigger] stack@[j] == given[n - 1 - j],
        ensures
            stack@.len() == n,
            forall|j: int| 0 <= j < n ==> #[trigger] stack@[j] == given[n - 1 - j],
        decreases rest@.len(),
    {
        let ghost k = rest@.len() as int;
        match rest.pop() {
            None => {
                break ;
            },
            Some(e) => {
                assert(given.take(k)[k - 1] == given[k - 1]);
                assert(rest@ =~= given.take(k - 1));
                stack.push(e);
            },
        }
    }
    let mut matrix_builder = ExprMatrixBuilder::<B>::new();
    loop
        invariant
            stack@.len() <= n,
            n == given.len(),
            given == space_prepared@,
            all == terms_of(given),
            forall|j: int| 0 <= j < stack@.len() ==> #[trigger] stack@[j] == given[n - 1 - j],
            matrix_builder.wf(),
            space_fits(all, (n - stack@.len()) as nat),
            (matrix_builder.columns(), matrix_builder.rows_view()) == space_rows(
                all,
                (n - stack@.len()) as nat,
            ),
        ensures
            stack@.len() == 0,
            matrix_builder.wf(),
            space_fits(all, n as nat),
            (matrix_builder.columns(), matrix_builder.rows_view()) == space_rows(all, n as nat),
        decreases stack@.len(),
    {
        let ghost k = stack@.len() as int;
        let ghost i = n - k;
        match stack.pop() {
            None => {
                break ;
            },
            Some(expr) => {
                proof {
                    assert(expr == given[i]);
                    assert(all[i] == expr.terms());
                }
                let terms = expr.len();
                if terms > 0x7fff_ffff || matrix_builder.column_count() > 0x7fff_ffff - terms
                    || matrix_builder.row_count() >= 0x7fff_ffff {
                    proof {
                        lemma_space_unfit(all, (i + 1) as nat, n as nat);
                    }
                    return None;
                }
                matrix_builder.add_expr(expr);
            },
        }
    }
    Some(matrix_builder.make_matrix())
}

/// Once a beginning of a space does not fit, the space does not fit.
proof fn lemma_space_unfit(space: Seq<TermSeq>, i: nat, n: nat)
    requires
        i <= n <= space.len(),
        !space_fits(space, i),
    ensures
        !space_fits(space, n),
    decreases n - i,
{
    if i < n {
        lemma_space_unfit(space, i, (n - 1) as nat);
    }
}

} // verus!
