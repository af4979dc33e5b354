//! A dense matrix laid over a flat buffer.

use vstd::prelude::*;
use vstd::slice::slice_subrange;

verus! {

/// `i * cols + j` stays below `rows * cols` for an in-range cell.
pub(crate) proof fn lemma_cell_index(i: int, j: int, rows: int, cols: int)
    requires
        0 <= i < rows,
        0 <= j < cols,
    ensures
        0 <= i * cols,
        0 <= i * cols + j < rows * cols,
        i * cols + cols <= rows * cols,
{
    assert(i * cols >= 0) by (nonlinear_arith)
        requires
            i >= 0,
            cols > 0,
    ;
    assert((i + 1) * cols <= rows * cols) by (nonlinear_arith)
        requires
            i + 1 <= rows,
            cols > 0,
    ;
    assert((i + 1) * cols == i * cols + cols) by (nonlinear_arith);
}

/// A read-only, row-major view of `rows * cols` values in a flat buffer.
///
/// The cell of row `i` and column `j` is `data[i * cols + j]`.  Construction
/// does not check the shape; [`Matrix::is_valid`] does, and every operation
/// that reads cells asks for a well-formed matrix.
pub struct Matrix<'a, T> {
    pub data: &'a [T],
    pub rows: usize,
    pub cols: usize,
}

impl<'a, T> Matrix<'a, T> {
    /// The buffer holds exactly `rows * cols` values.
    pub open spec fn wf(&self) -> bool {
        self.data@.len() == self.rows * self.cols
    }

    /// The value in row `i`, column `j`.
    pub open spec fn cell(&self, i: int, j: int) -> T {
        self.data@[i * self.cols + j]
    }

    /// Row `i` as a sequence of `cols` values.
    pub open spec fn row(&self, i: int) -> Seq<T> {
        self.data@.subrange(i * self.cols, i * self.cols + self.cols)
    }

    /// Column `j` as a sequence of `rows` values.
    pub open spec fn col(&self, j: int) -> Seq<T> {
        Seq::new(self.rows as nat, |i: int| self.cell(i, j))
    }

    /// Lays a matrix of the given shape over `data`.
    pub fn new(data: &'a [T], rows: usize, cols: usize) -> (m: Self)
        ensures
            m.data@ == data@,
            m.rows == rows,
            m.cols == cols,
    {
        Matrix { data, rows, cols }
    }

    /// Whether the buffer length equals `rows * cols`.
    pub fn is_valid(&self) -> (ok: bool)
        ensures
            ok == self.wf(),
    {
        let len: usize = self.data.len();
        match self.rows.checked_mul(self.cols) {
            Some(n) => len == n,
            None => false,
        }
    }

    /// The value in row `i`, column `j`.
    pub fn get(&self, i: usize, j: usize) -> (v: &T)
        requires
            self.wf(),
            i < self.rows,
            j < self.cols,
        ensures
            *v == self.cell(i as int, j as int),
    {
        proof {
            vstd::slice::axiom_spec_len(self.data);
            lemma_cell_index(i as int, j as int, self.rows as int, self.cols as int);
        }
        &self.data[i * self.cols + j]
    }

    /// Row `i`, borrowed from the buffer without copying.
    pub fn get_row(&self, i: usize) -> (r: &'a [T])
        requires
            self.wf(),
            i < self.rows,
        ensures
            r@ == self.row(i as int),
            r@.len() == self.cols,
    {
        if self.cols == 0 {
            assert(i * 0 == 0) by (nonlinear_arith);
            slice_subrange(self.data, 0, 0)
        } else {
            proof {
                vstd::slice::axiom_spec_len(self.data);
                lemma_cell_index(i as int, 0, self.rows as int, self.cols as int);
            }
            let start: usize = i * self.cols;
            slice_subrange(self.data, start, start + self.cols)
        }
    }
}

impl<'a, T: Copy> Matrix<'a, T> {
    /// Column `j`, copied out of the buffer in row order.
    pub fn get_col(&self, j: usize) -> (c: Vec<T>)
        requires
            self.wf(),
            j < self.cols,
        ensures
            c@ == self.col(j as int),
    {
        let mut c: Vec<T> = Vec::new();
        let mut i: usize = 0;
        while i < self.rows
            invariant
                self.wf(),
                j < self.cols,
                i <= self.rows,
                c@.len() == i,
                forall|k: int| 0 <= k < i ==> c@[k] == self.cell(k, j as int),
            decreases self.rows - i,
        {
            c.push(*self.get(i, j));
            i += 1;
        }
        assert(c@ =~= self.col(j as int));
        c
    }
}

} // verus!
