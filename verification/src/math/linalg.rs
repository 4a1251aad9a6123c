//! Sparse matrices as lists of entries.

use vstd::prelude::*;

verus! {

/// One entry of a sparse matrix.
#[derive(Clone, Copy, PartialEq, Eq, Debug, Structural)]
pub struct Triplet {
    pub row: i32,
    pub col: i32,
    pub value: i32,
}

/// A sparse matrix: its entries in the order in which they were set, and
/// its numbers of rows and columns.
pub struct Matrix {
    triplets: Vec<Triplet>,
    num_rows: u32,
    num_cols: u32,
}

/// The larger of two numbers.
pub open spec fn larger(a: int, b: int) -> int {
    if a >= b {
        a
    } else {
        b
    }
}

impl Matrix {
    /// The entries in the order in which they were set.
    pub closed spec fn entries(&self) -> Seq<Triplet> {
        self.triplets@
    }

    /// The number of rows: one more than the greatest row set.
    pub closed spec fn rows(&self) -> int {
        self.num_rows as int
    }

    /// The number of columns: one more than the greatest column set.
    pub closed spec fn cols(&self) -> int {
        self.num_cols as int
    }

    /// The matrix without entries.
    pub fn new() -> (r: Self)
        ensures
            r.entries() == Seq::<Triplet>::empty(),
            r.rows() == 0,
            r.cols() == 0,
    {
        Matrix { triplets: Vec::new(), num_rows: 0, num_cols: 0 }
    }

    /// Sets an entry. The matrix grows to hold its row and its column.
    pub fn set(&mut self, row: u32, col: u32, value: i32)
        requires
            row <= i32::MAX,
            col <= i32::MAX,
        ensures
            final(self).entries() == old(self).entries().push(
                Triplet { row: row as i32, col: col as i32, value },
            ),
            final(self).rows() == larger(old(self).rows(), row + 1),
            final(self).cols() == larger(old(self).cols(), col + 1),
    {
        self.triplets.push(Triplet { row: row as i32, col: col as i32, value });
        if self.num_rows < row + 1 {
            self.num_rows = row + 1;
        }
        if self.num_cols < col + 1 {
            self.num_cols = col + 1;
        }
    }

    /// The number of rows.
    pub fn num_rows(&self) -> (r: u32)
        ensures
            r == self.rows(),
    {
        self.num_rows
    }

    /// The number of columns.
    pub fn num_cols(&self) -> (r: u32)
        ensures
            r == self.cols(),
    {
        self.num_cols
    }

    /// The entries in the order in which they were set.
    pub fn triplets(&self) -> (r: &Vec<Triplet>)
        ensures
            r@ == self.entries(),
    {
        &self.triplets
    }
}

/// The number of rows that a list of entries asks for: one more than its
/// greatest row.
pub open spec fn rows_extent(ts: Seq<Triplet>) -> int
    decreases ts.len(),
{
    if ts.len() == 0 {
        0
    } else {
        larger(rows_extent(ts.drop_last()), ts.last().row + 1)
    }
}

/// The number of columns that a list of entries asks for: one more than its
/// greatest column.
pub open spec fn cols_extent(ts: Seq<Triplet>) -> int
    decreases ts.len(),
{
    if ts.len() == 0 {
        0
    } else {
        larger(cols_extent(ts.drop_last()), ts.last().col + 1)
    }
}

} // verus!
