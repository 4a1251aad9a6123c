//! From a family of formal sums to a sparse matrix: one row for each sum,
//! one column for each monomial, equal rows and equal columns kept once.

use vstd::prelude::*;
use crate::base::enumerator::{Enumerator, index_in, lemma_index_in};
use crate::math::linalg::{Matrix, Triplet, rows_extent, cols_extent};
use crate::math::linear::{Linear, LinearMonom, term_list};
use crate::math::terms::{TermSeq, Word};

verus! {

/// An entry of a sparse row or column: the column or row, and the value.
pub type SparseElement = (u32, i32);

/// A sparse row or column.
pub type SparseSeq = Seq<(u32, i32)>;

/// The row that a list of terms becomes, and the columns known afterwards:
/// each term gives an entry in the column of its monomial, and a monomial
/// that has no column yet gets the next one.
pub open spec fn sparse_row(keys: Seq<Word>, t: TermSeq) -> (Seq<Word>, SparseSeq)
    decreases t.len(),
{
    if t.len() == 0 {
        (keys, Seq::empty())
    } else {
        let (k1, r1) = sparse_row(keys, t.drop_last());
        let idx = index_in(k1, t.last().0);
        if idx >= 0 {
            (k1, r1.push((idx as u32, t.last().1 as i32)))
        } else {
            (k1.push(t.last().0), r1.push((k1.len() as u32, t.last().1 as i32)))
        }
    }
}

/// The list with `x` appended unless it holds `x` already.
pub open spec fn add_unique<A>(s: Seq<A>, x: A) -> Seq<A> {
    if s.contains(x) {
        s
    } else {
        s.push(x)
    }
}

/// The first occurrences of the items of a list, in their order.
pub open spec fn dedup<A>(s: Seq<A>) -> Seq<A>
    decreases s.len(),
{
    if s.len() == 0 {
        Seq::empty()
    } else {
        add_unique(dedup(s.drop_last()), s.last())
    }
}

/// The columns with the entries of one row added: the entry for column `c`
/// goes to the end of column `c`.
pub open spec fn scatter(cols: Seq<SparseSeq>, row: SparseSeq, ri: u32) -> Seq<SparseSeq>
    decreases row.len(),
{
    if row.len() == 0 {
        cols
    } else {
        let c = scatter(cols, row.drop_last(), ri);
        let ci = row.last().0 as int;
        if ci < c.len() {
            c.update(ci, c[ci].push((ri, row.last().1)))
        } else {
            c
        }
    }
}

/// The `n` columns of a list of rows.
pub open spec fn columns_of(rows: Seq<SparseSeq>, n: nat) -> Seq<SparseSeq>
    decreases rows.len(),
{
    if rows.len() == 0 {
        Seq::new(n, |i: int| Seq::<(u32, i32)>::empty())
    } else {
        scatter(columns_of(rows.drop_last(), n), rows.last(), (rows.len() - 1) as u32)
    }
}

/// The list `long` begins with the list `short`.
pub open spec fn begins_with(long: Seq<Word>, short: Seq<Word>) -> bool {
    short.len() <= long.len() && long.take(short.len() as int) == short
}

/// A key that is found in a list is found at the same place in a longer
/// list that begins with it.
pub proof fn lemma_index_kept(long: Seq<Word>, short: Seq<Word>, k: Word)
    requires
        begins_with(long, short),
        index_in(short, k) >= 0,
    ensures
        index_in(long, k) == index_in(short, k),
    decreases long.len(),
{
    if long.len() == short.len() {
        assert(long.take(short.len() as int) =~= long);
    } else {
        assert(long.drop_last().take(short.len() as int) =~= long.take(short.len() as int));
        lemma_index_kept(long.drop_last(), short, k);
    }
}

/// The columns known after a row has been made begin with those known
/// before.
pub proof fn lemma_columns_grow(keys: Seq<Word>, t: TermSeq)
    ensures
        begins_with(sparse_row(keys, t).0, keys),
    decreases t.len(),
{
    if t.len() == 0 {
        assert(keys.take(keys.len() as int) =~= keys);
    } else {
        lemma_columns_grow(keys, t.drop_last());
        let before = sparse_row(keys, t.drop_last()).0;
        let after = sparse_row(keys, t).0;
        assert(after.take(keys.len() as int) =~= before.take(keys.len() as int));
    }
}

/// Once the columns of a list of terms are known, the same terms give the
/// same row again and no new column, whatever columns have come after.
pub proof fn lemma_row_again(keys: Seq<Word>, later: Seq<Word>, t: TermSeq)
    requires
        begins_with(later, sparse_row(keys, t).0),
    ensures
        sparse_row(later, t) == (later, sparse_row(keys, t).1),
    decreases t.len(),
{
    if t.len() > 0 {
        let (k1, r1) = sparse_row(keys, t.drop_last());
        let known = sparse_row(keys, t).0;
        let w = t.last().0;
        assert(begins_with(known, k1)) by {
            if index_in(k1, w) >= 0 {
                assert(known.take(k1.len() as int) =~= known);
            } else {
                assert(known.take(k1.len() as int) =~= k1);
            }
        }
        assert(later.take(k1.len() as int) =~= later.take(known.len() as int).take(k1.len() as int));
        lemma_row_again(keys, later, t.drop_last());
        if index_in(k1, w) >= 0 {
            lemma_index_kept(later, k1, w);
        } else {
            assert(known.drop_last() =~= k1);
            lemma_index_kept(later, known, w);
        }
    }
}

/// Adding a formal sum a second time changes nothing: the same terms find
/// their columns, and their row is there already.
pub proof fn lemma_add_again(keys: Seq<Word>, rows: Seq<SparseSeq>, t: TermSeq)
    ensures
        ({
            let once = sparse_row(keys, t);
            let twice = sparse_row(once.0, t);
            &&& twice == once
            &&& add_unique(add_unique(rows, once.1), twice.1) == add_unique(rows, once.1)
        }),
{
    let once = sparse_row(keys, t);
    assert(once.0.take(once.0.len() as int) =~= once.0);
    lemma_row_again(keys, once.0, t);
    if !rows.contains(once.1) {
        assert(rows.push(once.1).last() == once.1);
    }
}

/// The entries of a matrix that one column gives.
pub open spec fn column_triplets(col: SparseSeq, ci: int) -> Seq<Triplet> {
    Seq::new(col.len(), |i: int| Triplet { row: col[i].0 as i32, col: ci as i32, value: col[i].1 })
}

/// The entries of the matrix of a list of columns, column by column.
pub open spec fn all_triplets(cols: Seq<SparseSeq>) -> Seq<Triplet>
    decreases cols.len(),
{
    if cols.len() == 0 {
        Seq::empty()
    } else {
        all_triplets(cols.drop_last()) + column_triplets(cols.last(), cols.len() - 1)
    }
}

/// The sparse sequences that a list of vectors holds.
pub open spec fn views(v: Seq<Vec<SparseElement>>) -> Seq<SparseSeq> {
    Seq::new(v.len(), |i: int| v[i]@)
}

/// Every row index in the columns is below `bound`.
pub open spec fn rows_below(cols: Seq<SparseSeq>, bound: int) -> bool {
    forall|c: int, e: int| 0 <= c < cols.len() && 0 <= e < cols[c].len() ==> (#[trigger] cols[c][e]).0 < bound
}

proof fn lemma_scatter(cols: Seq<SparseSeq>, row: SparseSeq, ri: u32, bound: int)
    requires
        rows_below(cols, bound),
        ri < bound,
    ensures
        scatter(cols, row, ri).len() == cols.len(),
        rows_below(scatter(cols, row, ri), bound),
    decreases row.len(),
{
    if row.len() > 0 {
        lemma_scatter(cols, row.drop_last(), ri, bound);
        let c = scatter(cols, row.drop_last(), ri);
        let ci = row.last().0 as int;
        let out = scatter(cols, row, ri);
        if ci < c.len() {
            assert forall|a: int, e: int| 0 <= a < out.len() && 0 <= e < out[a].len() implies (#[trigger] out[a][e]).0 < bound by {
                if a == ci {
                    if e < c[ci].len() {
                        assert(out[a][e] == c[ci][e]);
                    }
                } else {
                    assert(out[a][e] == c[a][e]);
                }
            }
        }
    }
}

proof fn lemma_columns_of(rows: Seq<SparseSeq>, n: nat)
    requires
        rows.len() <= u32::MAX,
    ensures
        columns_of(rows, n).len() == n,
        rows_below(columns_of(rows, n), rows.len() as int),
    decreases rows.len(),
{
    if rows.len() > 0 {
        lemma_columns_of(rows.drop_last(), n);
        let before = columns_of(rows.drop_last(), n);
        assert(rows_below(before, rows.len() as int)) by {
            assert forall|c: int, e: int| 0 <= c < before.len() && 0 <= e < before[c].len() implies (#[trigger] before[c][e]).0 < rows.len() by {
                assert(before[c][e].0 < rows.len() - 1);
            }
        }
        lemma_scatter(before, rows.last(), (rows.len() - 1) as u32, rows.len() as int);
    }
}

proof fn lemma_dedup<A>(s: Seq<A>)
    ensures
        dedup(s).len() <= s.len(),
        forall|i: int| 0 <= i < dedup(s).len() ==> s.contains(#[trigger] dedup(s)[i]),
    decreases s.len(),
{
    if s.len() > 0 {
        lemma_dedup(s.drop_last());
        let d = dedup(s.drop_last());
        assert forall|i: int| 0 <= i < dedup(s).len() implies s.contains(#[trigger] dedup(s)[i]) by {
            if i < d.len() {
                assert(dedup(s)[i] == d[i]);
                let j = choose|j: int| 0 <= j < s.drop_last().len() && s.drop_last()[j] == d[i];
                assert(s[j] == d[i]);
            } else {
                assert(dedup(s)[i] == s.last());
                assert(s[s.len() - 1] == s.last());
            }
        }
    }
}

/// Whether two sparse rows are the same.
fn same_row(a: &Vec<SparseElement>, b: &Vec<SparseElement>) -> (r: bool)
    ensures
        r == (a@ == b@),
{
    if a.len() != b.len() {
        return false;
    }
    let mut i: usize = 0;
    while i < a.len()
        invariant
            i <= a@.len(),
            a@.len() == b@.len(),
            forall|j: int| 0 <= j < i ==> a@[j] == b@[j],
        decreases a@.len() - i,
    {
        if a[i].0 != b[i].0 || a[i].1 != b[i].1 {
            assert(a@[i as int] != b@[i as int]);
            return false;
        }
        i += 1;
    }
    assert(a@ =~= b@);
    true
}

/// Whether the list holds the row.
fn holds_row(rows: &Vec<Vec<SparseElement>>, row: &Vec<SparseElement>) -> (r: bool)
    ensures
        r == views(rows@).contains(row@),
{
    let mut i: usize = 0;
    while i < rows.len()
        invariant
            i <= rows@.len(),
            forall|j: int| 0 <= j < i ==> views(rows@)[j] != row@,
        decreases rows@.len() - i,
    {
        if same_row(&rows[i], row) {
            assert(views(rows@)[i as int] == row@);
            return true;
        }
        i += 1;
    }
    false
}

/// A copy of a sparse row.
fn copy_row(row: &Vec<SparseElement>) -> (r: Vec<SparseElement>)
    ensures
        r@ == row@,
{
    let mut r: Vec<SparseElement> = Vec::new();
    let mut i: usize = 0;
    while i < row.len()
        invariant
            i <= row@.len(),
            r@ == row@.take(i as int),
        decreases row@.len() - i,
    {
        r.push((row[i].0, row[i].1));
        assert(row@.take(i as int).push(row@[i as int]) =~= row@.take(i + 1));
        i += 1;
    }
    assert(row@.take(i as int) =~= row@);
    r
}

/// Builds the matrix of a family of formal sums.
pub struct ExprMatrixBuilder<T: LinearMonom> {
    monom_enumerator: Enumerator<T>,
    // For each row: for each non-zero value: (column, value)
    rows: Vec<Vec<SparseElement>>,
}

impl<T: LinearMonom> ExprMatrixBuilder<T> {
    /// The monomials that have a column, each at the position that is its column.
    pub closed spec fn columns(&self) -> Seq<Word> {
        self.monom_enumerator.keys()
    }

    /// The distinct rows, in the order in which they were first added.
    pub closed spec fn rows_view(&self) -> Seq<SparseSeq> {
        views(self.rows@)
    }

    /// Every entry is in a known column, and the numbers of rows and of
    /// columns are in the range of the matrix.
    pub closed spec fn wf(&self) -> bool {
        &&& self.rows@.len() <= i32::MAX
        &&& self.monom_enumerator.keys().len() <= i32::MAX
        &&& forall|r: int, e: int|
            0 <= r < self.rows@.len() && 0 <= e < self.rows@[r]@.len() ==> (#[trigger] self.rows@[r]@[e]).0
                < self.monom_enumerator.keys().len()
    }

    /// A builder without rows and columns.
    pub fn new() -> (r: Self)
        ensures
            r.wf(),
            r.columns() == Seq::<Word>::empty(),
            r.rows_view() == Seq::<SparseSeq>::empty(),
    {
        let r = ExprMatrixBuilder { monom_enumerator: Enumerator::new(), rows: Vec::new() };
        assert(r.rows_view() =~= Seq::<SparseSeq>::empty());
        r
    }

    /// The number of columns.
    pub fn column_count(&self) -> (n: usize)
        ensures
            n == self.columns().len(),
    {
        self.monom_enumerator.len()
    }

    /// The number of distinct rows.
    pub fn row_count(&self) -> (n: usize)
        ensures
            n == self.rows_view().len(),
    {
        self.rows.len()
    }

    /// Adds the row of a formal sum, unless an equal row is there already.
    pub fn add_expr(&mut self, expr: Linear<T>)
        requires
            old(self).wf(),
            old(self).columns().len() + expr.terms().len() <= i32::MAX,
            old(self).rows_view().len() < i32::MAX,
        ensures
            final(self).wf(),
            final(self).columns() == sparse_row(old(self).columns(), expr.terms()).0,
            final(self).rows_view() == add_unique(
                old(self).rows_view(),
                sparse_row(old(self).columns(), expr.terms()).1,
            ),
    {
        let ghost k0 = self.columns();
        let ghost t = expr.terms();
        let items = expr.into_iter();
        let mut row: Vec<SparseElement> = Vec::new();
        let mut i: usize = 0;
        assert(t.take(0) =~= Seq::<(Seq<int>, int)>::empty());
        while i < items.len()
            invariant
                i <= items@.len(),
                term_list(items@) == t,
                k0.len() + t.len() <= i32::MAX,
                self.rows == old(self).rows,
                (self.monom_enumerator.keys(), row@) == sparse_row(k0, t.take(i as int)),
                k0.len() <= self.monom_enumerator.keys().len() <= k0.len() + i,
                forall|e: int| 0 <= e < row@.len() ==> (#[trigger] row@[e]).0 < self.monom_enumerator.keys().len(),
            decreases items@.len() - i,
        {
            let ghost keys = self.monom_enumerator.keys();
            let ghost before = row@;
            proof {
                assert(t.take(i + 1).drop_last() =~= t.take(i as int));
                assert(t.take(i + 1).last() == t[i as int]);
                assert(t[i as int] == (items@[i as int].0.key(), items@[i as int].1 as int));
                lemma_index_in(keys, t[i as int].0);
            }
            let col_idx = self.monom_enumerator.index(items[i].0.duplicate());
            row.push((col_idx as u32, items[i].1));
            proof {
                assert forall|e: int| 0 <= e < row@.len() implies (#[trigger] row@[e]).0 < self.monom_enumerator.keys().len() by {
                    if e < before.len() {
                        assert(row@[e] == before[e]);
                    }
                }
            }
            i += 1;
        }
        assert(t.take(i as int) =~= t);
        let ghost old_rows = views(self.rows@);
        if !holds_row(&self.rows, &row) {
            self.rows.push(row);
            assert(views(self.rows@) =~= old_rows.push(row@));
        }
    }

    /// The distinct columns, each as the list of its entries from the first
    /// row down, in the order in which the columns first occur.
    pub fn unique_columns(&self) -> (r: Vec<Vec<SparseElement>>)
        requires
            self.wf(),
        ensures
            views(r@) == dedup(columns_of(self.rows_view(), self.columns().len())),
    {
        let n = self.monom_enumerator.len();
        let ghost rv = views(self.rows@);
        let mut cols: Vec<Vec<SparseElement>> = Vec::new();
        let mut c: usize = 0;
        while c < n
            invariant
                c <= n,
                cols@.len() == c,
                forall|j: int| 0 <= j < c ==> (#[trigger] cols@[j])@ == Seq::<(u32, i32)>::empty(),
            decreases n - c,
        {
            cols.push(Vec::new());
            c += 1;
        }
        assert(views(cols@) =~= columns_of(rv.take(0), n as nat)) by {
            assert(rv.take(0) =~= Seq::<SparseSeq>::empty());
        }
        let mut ri: usize = 0;
        while ri < self.rows.len()
            invariant
                ri <= self.rows@.len(),
                self.wf(),
                n == self.monom_enumerator.keys().len(),
                rv == views(self.rows@),
                cols@.len() == n,
                views(cols@) == columns_of(rv.take(ri as int), n as nat),
            decreases self.rows@.len() - ri,
        {
            let ghost base = views(cols@);
            let ghost row = self.rows@[ri as int]@;
            let mut e: usize = 0;
            proof {
                assert(rv.take(ri + 1).drop_last() =~= rv.take(ri as int));
                assert(rv.take(ri + 1).last() == row);
                assert(row.take(0) =~= Seq::<(u32, i32)>::empty());
            }
            while e < self.rows[ri].len()
                invariant
                    ri < self.rows@.len(),
                    ri <= i32::MAX,
                    e <= row.len(),
                    self.wf(),
                    n == self.monom_enumerator.keys().len(),
                    row == self.rows@[ri as int]@,
                    cols@.len() == n,
                    base.len() == n,
                    views(cols@) == scatter(base, row.take(e as int), ri as u32),
                decreases row.len() - e,
            {
                let entry = self.rows[ri][e];
                let ci = entry.0 as usize;
                let ghost before = views(cols@);
                proof {
                    assert(row.take(e + 1).drop_last() =~= row.take(e as int));
                    assert(row.take(e + 1).last() == row[e as int]);
                    assert(self.rows@[ri as int]@[e as int].0 < n);
                }
                cols[ci].push((ri as u32, entry.1));
                proof {
                    assert(views(cols@) =~= before.update(ci as int, before[ci as int].push((ri as u32, entry.1))));
                }
                e += 1;
            }
            assert(row.take(e as int) =~= row);
            ri += 1;
        }
        assert(rv.take(ri as int) =~= rv);
        let ghost all = views(cols@);
        let mut out: Vec<Vec<SparseElement>> = Vec::new();
        let mut k: usize = 0;
        assert(all.take(0) =~= Seq::<SparseSeq>::empty());
        assert(views(out@) =~= dedup(all.take(0)));
        while k < cols.len()
            invariant
                k <= cols@.len(),
                all == views(cols@),
                views(out@) == dedup(all.take(k as int)),
            decreases cols@.len() - k,
        {
            let ghost before = views(out@);
            proof {
                assert(all.take(k + 1).drop_last() =~= all.take(k as int));
                assert(all.take(k + 1).last() == cols@[k as int]@);
            }
            if !holds_row(&out, &cols[k]) {
                out.push(copy_row(&cols[k]));
                assert(views(out@) =~= before.push(cols@[k as int]@));
            }
            k += 1;
        }
        assert(all.take(k as int) =~= all);
        out
    }

    /// The matrix of the rows added: its columns are the distinct columns,
    /// in the order in which they first occur.
    pub fn make_matrix(&self) -> (m: Matrix)
        requires
            self.wf(),
        ensures
            m.entries() == all_triplets(dedup(columns_of(self.rows_view(), self.columns().len()))),
            m.rows() == rows_extent(m.entries()),
            m.cols() == cols_extent(m.entries()),
    {
        let cols = self.unique_columns();
        let ghost cv = views(cols@);
        let ghost full = columns_of(self.rows_view(), self.columns().len());
        proof {
            lemma_columns_of(self.rows_view(), self.columns().len());
            lemma_dedup(full);
            assert forall|c: int, e: int| 0 <= c < cv.len() && 0 <= e < cv[c].len() implies (#[trigger] cv[c][e]).0 <= i32::MAX by {
                let j = choose|j: int| 0 <= j < full.len() && full[j] == cv[c];
                assert(full[j][e].0 < self.rows_view().len());
            }
        }
        let mut m = Matrix::new();
        let mut ci: usize = 0;
        assert(cv.take(0) =~= Seq::<SparseSeq>::empty());
        while ci < cols.len()
            invariant
                ci <= cols@.len(),
                cols@.len() <= i32::MAX,
                cv == views(cols@),
                forall|c: int, e: int| 0 <= c < cv.len() && 0 <= e < cv[c].len() ==> (#[trigger] cv[c][e]).0 <= i32::MAX,
                m.entries() == all_triplets(cv.take(ci as int)),
                m.rows() == rows_extent(m.entries()),
                m.cols() == cols_extent(m.entries()),
            decreases cols@.len() - ci,
        {
            let ghost done = m.entries();
            let ghost col = cols@[ci as int]@;
            let mut e: usize = 0;
            proof {
                assert(cv.take(ci + 1).drop_last() =~= cv.take(ci as int));
                assert(cv.take(ci + 1).last() == col);
                assert(done + column_triplets(col, ci as int).take(0) =~= done);
            }
            while e < cols[ci].len()
                invariant
                    ci < cols@.len(),
                    cols@.len() <= i32::MAX,
                    e <= col.len(),
                    col == cols@[ci as int]@,
                    cv == views(cols@),
                    forall|c: int, x: int| 0 <= c < cv.len() && 0 <= x < cv[c].len() ==> (#[trigger] cv[c][x]).0 <= i32::MAX,
                    m.entries() == done + column_triplets(col, ci as int).take(e as int),
                    m.rows() == rows_extent(m.entries()),
                    m.cols() == cols_extent(m.entries()),
                decreases col.len() - e,
            {
                let entry = cols[ci][e];
                let ghost before = m.entries();
                proof {
                    assert(cv[ci as int][e as int].0 <= i32::MAX);
                }
                m.set(entry.0, ci as u32, entry.1);
                proof {
                    let ct = column_triplets(col, ci as int);
                    assert(m.entries() =~= done + ct.take(e + 1));
                    assert(m.entries().drop_last() =~= before);
                }
                e += 1;
            }
            assert(column_triplets(col, ci as int).take(e as int) =~= column_triplets(col, ci as int));
            ci += 1;
        }
        assert(cv.take(ci as int) =~= cv);
        m
    }
}

} // verus!
