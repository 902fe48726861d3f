//! A dense two-dimensional table of categorical values, stored row by row.

use vstd::prelude::*;

use crate::element::EquivalenceTarget;

verus! {

/// A matrix with `nrows` rows of `ncols` values each.
#[derive(Debug, PartialEq, Eq)]
pub struct Matrix<T> {
    ncols: usize,
    rows: Vec<Vec<T>>,
}

impl<T> View for Matrix<T> {
    type V = Seq<Seq<T>>;

    closed spec fn view(&self) -> Seq<Seq<T>> {
        self.rows@.map_values(|r: Vec<T>| r@)
    }
}

impl<T> Matrix<T> {
    /// Number of columns (meaningful also when there are no rows).
    pub closed spec fn width(&self) -> nat {
        self.ncols as nat
    }

    #[verifier::type_invariant]
    closed spec fn inv(&self) -> bool {
        &&& forall|i: int| 0 <= i < self.rows@.len() ==> #[trigger] self.rows@[i]@.len() == self.ncols
        &&& self.rows@.len() * self.ncols <= usize::MAX
    }

    /// Every row has `width` values, and the whole matrix fits in memory.
    pub open spec fn wf(&self) -> bool {
        &&& forall|i: int| 0 <= i < self@.len() ==> #[trigger] self@[i].len() == self.width()
        &&& self@.len() * self.width() <= usize::MAX
    }

    /// Number of rows.
    pub fn nrows(&self) -> (r: usize)
        ensures
            r == self@.len(),
    {
        self.rows.len()
    }

    /// Number of columns.
    pub fn ncols(&self) -> (r: usize)
        ensures
            r == self.width(),
    {
        self.ncols
    }

    /// `(nrows, ncols)`.
    pub fn dim(&self) -> (r: (usize, usize))
        ensures
            r.0 == self@.len(),
            r.1 == self.width(),
    {
        (self.rows.len(), self.ncols)
    }

    proof fn lemma_inv_wf(&self)
        requires
            self.inv(),
        ensures
            self.wf(),
            forall|i: int| 0 <= i < self@.len() ==> #[trigger] self@[i] == self.rows@[i]@,
    {
        assert forall|i: int| 0 <= i < self@.len() implies #[trigger] self@[i] == self.rows@[i]@ by {}
        assert forall|i: int| 0 <= i < self@.len() implies #[trigger] self@[i].len() == self.width() by {
            assert(self@[i] == self.rows@[i]@);
        }
    }

    /// Every row has `width` values and the matrix fits in memory.
    pub fn assert_wf(&self)
        ensures
            self.wf(),
    {
        proof {
            use_type_invariant(self);
            self.lemma_inv_wf();
        }
    }

    /// The value in row `i`, column `j`.
    pub fn get(&self, i: usize, j: usize) -> (r: &T)
        requires
            i < self@.len(),
            j < self.width(),
        ensures
            *r == self@[i as int][j as int],
    {
        proof { use_type_invariant(self); self.lemma_inv_wf(); }
        &self.rows[i][j]
    }

    /// Row `i`.
    pub fn row(&self, i: usize) -> (r: &[T])
        requires
            i < self@.len(),
        ensures
            r@ == self@[i as int],
            r@.len() == self.width(),
    {
        proof { use_type_invariant(self); self.lemma_inv_wf(); }
        self.rows[i].as_slice()
    }

    /// Replaces the value in row `i`, column `j`.
    pub fn set(&mut self, i: usize, j: usize, value: T)
        requires
            i < old(self)@.len(),
            j < old(self).width(),
        ensures
            final(self).width() == old(self).width(),
            final(self)@ == old(self)@.update(i as int, old(self)@[i as int].update(j as int, value)),
    {
        proof { use_type_invariant(&*self); self.lemma_inv_wf(); }
        let mut rows: Vec<Vec<T>> = Vec::new();
        assert(0 * (self.ncols as int) == 0);
        core::mem::swap(&mut rows, &mut self.rows);
        assert(old(self)@[i as int] == rows@[i as int]@);
        rows[i].set(j, value);
        assert forall|a: int| 0 <= a < rows@.len() implies #[trigger] rows@[a]@.len() == self.ncols by {
            if a != i {
                assert(rows@[a] == old(self).rows@[a]);
            }
        }
        self.rows = rows;
        proof {
            assert(self@ =~= old(self)@.update(i as int, old(self)@[i as int].update(j as int, value)));
        }
    }

    /// Builds a matrix from rows that all have `ncols` values.
    pub(crate) fn from_rows_of_width(ncols: usize, rows: Vec<Vec<T>>) -> (r: Self)
        requires
            forall|i: int| 0 <= i < rows@.len() ==> #[trigger] rows@[i]@.len() == ncols,
            rows@.len() * ncols <= usize::MAX,
        ensures
            r.width() == ncols,
            r@.len() == rows@.len(),
            forall|i: int| 0 <= i < rows@.len() ==> #[trigger] r@[i] == rows@[i]@,
    {
        let r = Matrix { ncols, rows };
        assert forall|i: int| 0 <= i < r@.len() implies #[trigger] r@[i] == rows@[i]@ by {}
        r
    }

    /// Builds a matrix from its rows; `None` when the rows differ in length, or
    /// when the number of values does not fit in a `usize` (a matrix without
    /// rows has no columns).
    pub fn from_rows(rows: Vec<Vec<T>>) -> (r: Option<Self>)
        ensures
            match r {
                None => rows@.len() > 0 && ((exists|i: int|
                    0 <= i < rows@.len() && #[trigger] rows@[i]@.len() != rows@[0]@.len())
                    || rows@.len() * rows@[0]@.len() > usize::MAX),
                Some(m) => {
                    &&& m@.len() == rows@.len()
                    &&& (m@.len() > 0 ==> m.width() == rows@[0]@.len())
                    &&& (m@.len() == 0 ==> m.width() == 0)
                    &&& forall|i: int| 0 <= i < rows@.len() ==> #[trigger] m@[i] == rows@[i]@
                },
            },
    {
        let n = rows.len();
        if n == 0 {
            return Some(Matrix::from_rows_of_width(0, rows));
        }
        let ncols = rows[0].len();
        let mut i: usize = 0;
        while i < n
            invariant
                n == rows@.len(),
                ncols == rows@[0]@.len(),
                0 <= i <= n,
                forall|a: int| 0 <= a < i ==> #[trigger] rows@[a]@.len() == ncols,
            decreases n - i,
        {
            if rows[i].len() != ncols {
                return None;
            }
            i = i + 1;
        }
        match n.checked_mul(ncols) {
            None => None,
            Some(_) => Some(Matrix::from_rows_of_width(ncols, rows)),
        }
    }
}

impl<T: EquivalenceTarget> Matrix<T> {
    /// A copy of the matrix, value by value.
    pub fn duplicate(&self) -> (r: Self)
        ensures
            r.width() == self.width(),
            r@.len() == self@.len(),
            forall|i: int, j: int|
                0 <= i < self@.len() && 0 <= j < self@[i].len() ==> #[trigger] r@[i][j]@ == self@[i][j]@,
    {
        proof { use_type_invariant(self); self.lemma_inv_wf(); }
        let mut rows: Vec<Vec<T>> = Vec::new();
        let n = self.rows.len();
        for i in 0..n
            invariant
                n == self@.len(),
                self.wf(),
                rows.len() == i,
                forall|a: int| 0 <= a < i ==> #[trigger] rows@[a]@.len() == self.ncols,
                forall|a: int, b: int|
                    0 <= a < i && 0 <= b < self.ncols ==> #[trigger] rows@[a]@[b]@ == self@[a][b]@,
        {
            let src = &self.rows[i];
            assert(self@[i as int] == src@);
            let mut row: Vec<T> = Vec::new();
            for j in 0..src.len()
                invariant
                    row.len() == j,
                    forall|b: int| 0 <= b < j ==> #[trigger] row@[b]@ == src@[b]@,
            {
                row.push(src[j].duplicate());
            }
            rows.push(row);
        }
        let r = Matrix { ncols: self.ncols, rows };
        assert forall|a: int| 0 <= a < r@.len() implies #[trigger] r@[a] == rows@[a]@ by {}
        r
    }
}

impl<T: EquivalenceTarget> Clone for Matrix<T> {
    /// A copy of the matrix, value by value.
    fn clone(&self) -> (r: Self)
        ensures
            r.width() == self.width(),
            r@.len() == self@.len(),
            forall|i: int, j: int|
                0 <= i < self@.len() && 0 <= j < self@[i].len() ==> #[trigger] r@[i][j]@ == self@[i][j]@,
    {
        self.duplicate()
    }
}

} // verus!
