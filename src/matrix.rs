//! A dense row-major matrix.
use vstd::prelude::*;

verus! {

/// `nrows × ncols` values, row by row.
#[derive(Debug)]
pub struct Matrix<T> {
    pub nrows: usize,
    pub ncols: usize,
    pub values: Vec<T>,
}

impl<T> Matrix<T> {
    /// The values, row by row.
    pub closed spec fn cells(&self) -> Seq<T> {
        self.values@
    }

    /// The value at row `i`, column `j`.
    pub closed spec fn at(&self, i: int, j: int) -> T {
        self.cells()[i * self.ncols + j]
    }

    /// There are `nrows × ncols` values.
    pub closed spec fn wf(&self) -> bool {
        self.cells().len() == self.nrows * self.ncols
    }

    /// The matrix with `values`, which hold `nrows × ncols` of them, row by row.
    pub fn new(nrows: usize, ncols: usize, values: Vec<T>) -> (r: Matrix<T>)
        requires
            nrows * ncols == values@.len(),
        ensures
            r.wf(),
            r.nrows == nrows,
            r.ncols == ncols,
            r.cells() == values@,
    {
        Matrix { nrows, ncols, values }
    }

    /// The matrix with a copy of `values`.
    pub fn from_slice(nrows: usize, ncols: usize, values: &[T]) -> (r: Matrix<T>)
        where T: Copy,
        requires
            nrows * ncols == values@.len(),
        ensures
            r.wf(),
            r.nrows == nrows,
            r.ncols == ncols,
            r.cells() == values@,
    {
        let mut v: Vec<T> = Vec::new();
        let mut k: usize = 0;
        while k < values.len()
            invariant
                k <= values@.len(),
                v@ == values@.subrange(0, k as int),
            decreases values@.len() - k,
        {
            v.push(values[k]);
            k = k + 1;
        }
        proof {
            assert(v@ =~= values@);
        }
        Matrix::new(nrows, ncols, v)
    }

    /// Row `i`.
    pub fn row(&self, i: usize) -> (r: &[T])
        requires
            self.wf(),
            i < self.nrows,
        ensures
            r@ == self.cells().subrange(i * self.ncols, (i + 1) * self.ncols),
    {
        let len = self.values.len();
        proof {
            lemma_row_bounds(self.nrows as int, self.ncols as int, i as int);
        }
        vstd::slice::slice_subrange(self.values.as_slice(), i * self.ncols, (i + 1) * self.ncols)
    }

    /// The value at row `i`, column `j`.
    pub fn get(&self, i: usize, j: usize) -> (r: T)
        where T: Copy,
        requires
            self.wf(),
            i < self.nrows,
            j < self.ncols,
        ensures
            r == self.at(i as int, j as int),
    {
        let len = self.values.len();
        proof {
            lemma_row_bounds(self.nrows as int, self.ncols as int, i as int);
        }
        self.values[i * self.ncols + j]
    }

    /// A reference to the value at row `i`, column `j`.
    pub fn get_ref(&self, i: usize, j: usize) -> (r: &T)
        requires
            self.wf(),
            i < self.nrows,
            j < self.ncols,
        ensures
            *r == self.at(i as int, j as int),
    {
        let len = self.values.len();
        proof {
            lemma_row_bounds(self.nrows as int, self.ncols as int, i as int);
        }
        &self.values[i * self.ncols + j]
    }

    /// Sets the value at row `i`, column `j`.
    pub fn set(&mut self, i: usize, j: usize, value: T)
        requires
            old(self).wf(),
            i < old(self).nrows,
            j < old(self).ncols,
        ensures
            final(self).wf(),
            final(self).nrows == old(self).nrows,
            final(self).ncols == old(self).ncols,
            final(self).cells() == old(self).cells().update(i * old(self).ncols + j, value),
    {
        let len = self.values.len();
        proof {
            lemma_row_bounds(self.nrows as int, self.ncols as int, i as int);
        }
        self.values.set(i * self.ncols + j, value);
    }
}

proof fn lemma_row_bounds(nrows: int, ncols: int, i: int)
    requires
        0 <= i < nrows,
        0 <= ncols,
    ensures
        0 <= i * ncols,
        i * ncols + ncols == (i + 1) * ncols,
        (i + 1) * ncols <= nrows * ncols,
{
    assert(0 <= i * ncols) by (nonlinear_arith)
        requires
            0 <= i,
            0 <= ncols,
    ;
    assert(i * ncols + ncols == (i + 1) * ncols) by (nonlinear_arith);
    assert((i + 1) * ncols <= nrows * ncols) by (nonlinear_arith)
        requires
            i + 1 <= nrows,
            0 <= ncols,
    ;
}

} // verus!
