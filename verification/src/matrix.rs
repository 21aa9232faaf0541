//! The dense row-major matrix that carries a dataset and the converged
//! positions: `rows` points of `cols` coordinates each, every entry within
//! `[-COORD_MAX, COORD_MAX]`.

use vstd::prelude::*;

verus! {

use crate::{COORD_MAX, DIM_MAX, ROWS_MAX};
use crate::error::GravityError;
use crate::metric::{bounded_seq, valid_pair};

/// The first `n` of the given rows laid out one after another.
pub open spec fn flatten_rows(rs: Seq<Seq<i64>>, n: int) -> Seq<i64>
    decreases n,
{
    if n <= 0 {
        Seq::empty()
    } else {
        flatten_rows(rs, n - 1) + rs[n - 1]
    }
}

/// Length of the flattened prefix when every row has `cols` entries.
pub proof fn lemma_flatten_len(rs: Seq<Seq<i64>>, cols: int, n: int)
    requires
        0 <= n <= rs.len(),
        forall|i: int| 0 <= i < rs.len() ==> (#[trigger] rs[i]).len() == cols,
    ensures
        flatten_rows(rs, n).len() == n * cols,
    decreases n,
{
    if n > 0 {
        lemma_flatten_len(rs, cols, n - 1);
        assert((n - 1) * cols + cols == n * cols) by (nonlinear_arith);
    } else {
        assert(n * cols == 0) by (nonlinear_arith)
            requires
                n == 0,
        ;
    }
}

/// Entry `(t, u)` of the flattened prefix is entry `u` of row `t`.
pub proof fn lemma_flatten_index(rs: Seq<Seq<i64>>, cols: int, n: int, t: int, u: int)
    requires
        0 <= n <= rs.len(),
        forall|i: int| 0 <= i < rs.len() ==> (#[trigger] rs[i]).len() == cols,
        0 <= t < n,
        0 <= u < cols,
    ensures
        flatten_rows(rs, n)[t * cols + u] == rs[t][u],
    decreases n,
{
    lemma_flatten_len(rs, cols, n - 1);
    if t == n - 1 {
        assert(flatten_rows(rs, n)[(n - 1) * cols + u] == rs[n - 1][u]);
    } else {
        lemma_flatten_index(rs, cols, n - 1, t, u);
        assert(t * cols + u < (n - 1) * cols) by (nonlinear_arith)
            requires
                0 <= t && t < n - 1,
                0 <= u && u < cols,
        ;
    }
}

pub struct Matrix {
    pub data: Vec<i64>,
    pub rows: usize,
    pub cols: usize,
}

/// Every row of the matrix carries the same coordinates.
pub open spec fn all_rows_equal(m: Matrix) -> bool {
    forall|p: int, q: int|
        0 <= p < m.rows && 0 <= q < m.rows ==> #[trigger] m.row_seq(p) == #[trigger] m.row_seq(
            q,
        )
}

impl Matrix {
    /// The entry in row `i`, column `j`.
    pub open spec fn entry(&self, i: int, j: int) -> i64 {
        self.data@[i * (self.cols as int) + j]
    }

    /// Row `i` as a sequence of coordinates.
    pub open spec fn row_seq(&self, i: int) -> Seq<i64> {
        Seq::new(self.cols as nat, |j: int| self.entry(i, j))
    }

    /// Shape and bounds invariant.
    pub open spec fn wf(&self) -> bool {
        &&& self.data@.len() == (self.rows as int) * (self.cols as int)
        &&& self.rows <= ROWS_MAX
        &&& self.cols <= DIM_MAX
        &&& forall|k: int|
            0 <= k < self.data@.len() ==> -COORD_MAX <= #[trigger] self.data@[k] <= COORD_MAX
    }

    /// Every row of a well-formed matrix is a bounded vector of `cols`
    /// coordinates.
    pub proof fn lemma_row_valid(&self, i: int)
        requires
            self.wf(),
            0 <= i < self.rows,
        ensures
            self.row_seq(i).len() == self.cols,
            bounded_seq(self.row_seq(i)),
    {
        let r = self.row_seq(i);
        assert forall|j: int| 0 <= j < r.len() implies -COORD_MAX <= #[trigger] r[j]
            <= COORD_MAX by {
            let k = i * (self.cols as int) + j;
            assert(0 <= k < self.data@.len()) by (nonlinear_arith)
                requires
                    0 <= i && i < self.rows as int,
                    0 <= j && j < self.cols as int,
                    k == i * (self.cols as int) + j,
                    self.data@.len() == (self.rows as int) * (self.cols as int),
            ;
        }
    }

    /// Two rows of one well-formed matrix make a valid measure pair.
    pub proof fn lemma_rows_pair(&self, i: int, j: int)
        requires
            self.wf(),
            0 <= i < self.rows,
            0 <= j < self.rows,
        ensures
            valid_pair(self.row_seq(i), self.row_seq(j)),
    {
        self.lemma_row_valid(i);
        self.lemma_row_valid(j);
    }

    /// Builds a matrix after checking shape and entry bounds.
    ///
    /// Returns `Ok` exactly when `data` holds `rows * cols` entries, the
    /// dimensions are within their limits and every entry is within
    /// `[-COORD_MAX, COORD_MAX]`; the first offending entry is reported by
    /// row and column.
    #[verifier::loop_isolation(false)]
    pub fn new(data: Vec<i64>, rows: usize, cols: usize) -> (r: Result<Matrix, GravityError>)
        ensures
            match r {
                Ok(m) => {
                    &&& m.wf()
                    &&& m.data@ == data@
                    &&& m.rows == rows
                    &&& m.cols == cols
                },
                Err(GravityError::BadShape) => {
                    rows > ROWS_MAX || cols > DIM_MAX || data@.len() != (rows as int) * (
                    cols as int)
                },
                Err(GravityError::EntryOutOfRange { row, col }) => {
                    &&& rows <= ROWS_MAX
                    &&& cols <= DIM_MAX
                    &&& data@.len() == (rows as int) * (cols as int)
                    &&& 0 <= (row as int) * (cols as int) + col < data@.len()
                    &&& !(-COORD_MAX <= data@[(row as int) * (cols as int) + col as int]
                        <= COORD_MAX)
                },
                _ => false,
            },
            r.is_ok() <==> (rows <= ROWS_MAX && cols <= DIM_MAX && data@.len() == (rows as int)
                * (cols as int) && (forall|k: int|
                0 <= k < data@.len() ==> -COORD_MAX <= #[trigger] data@[k] <= COORD_MAX)),
    {
        if rows > ROWS_MAX || cols > DIM_MAX {
            return Err(GravityError::BadShape);
        }
        if cols == 0 {
            if data.len() != 0 {
                return Err(GravityError::BadShape);
            }
            return Ok(Matrix { data, rows, cols });
        }
        proof {
            assert((rows as int) * (cols as int) <= 0x40000000int) by (nonlinear_arith)
                requires
                    0 <= rows <= 1_048_576,
                    0 <= cols <= 1024,
            ;
        }
        let expect = rows * cols;
        if data.len() != expect {
            return Err(GravityError::BadShape);
        }
        let n = data.len();
        for k in 0..n
            invariant
                forall|t: int| 0 <= t < k ==> -COORD_MAX <= #[trigger] data@[t] <= COORD_MAX,
        {
            if data[k] > COORD_MAX || data[k] < -COORD_MAX {
                let row = k / cols;
                let col = k % cols;
                proof {
                    vstd::arithmetic::div_mod::lemma_fundamental_div_mod(k as int, cols as int);
                    assert((cols as int) * ((k as int) / (cols as int)) == ((k as int) / (
                    cols as int)) * (cols as int)) by (nonlinear_arith);
                }
                return Err(GravityError::EntryOutOfRange { row, col });
            }
        }
        Ok(Matrix { data, rows, cols })
    }

    /// The number of points.
    pub fn n_rows(&self) -> (r: usize)
        ensures
            r == self.rows,
    {
        self.rows
    }

    /// The number of coordinates per point.
    pub fn n_cols(&self) -> (r: usize)
        ensures
            r == self.cols,
    {
        self.cols
    }

    /// Copies row `i` out as a vector.
    #[verifier::loop_isolation(false)]
    pub fn row(&self, i: usize) -> (r: Vec<i64>)
        requires
            self.wf(),
            i < self.rows,
        ensures
            r@ == self.row_seq(i as int),
    {
        let mut out: Vec<i64> = Vec::new();
        proof {
            assert((i as int) * (self.cols as int) + (self.cols as int) <= (self.rows as int) * (
            self.cols as int)) by (nonlinear_arith)
                requires
                    0 <= i as int && (i as int) < self.rows as int,
            ;
            assert((i as int) * (self.cols as int) + (self.cols as int) <= 0x40000000int)
                by (nonlinear_arith)
                requires
                    0 <= i as int && (i as int) < 1_048_576,
                    0 <= self.cols as int && (self.cols as int) <= 1024,
            ;
        }
        let base = i * self.cols;
        for j in 0..self.cols
            invariant
                out@.len() == j,
                forall|t: int| 0 <= t < j ==> out@[t] == self.entry(i as int, t),
        {
            out.push(self.data[base + j]);
        }
        proof {
            assert(out@ =~= self.row_seq(i as int));
        }
        out
    }

    /// Builds a matrix from one vector per row.
    ///
    /// Meant for callers that have proved the rows well formed already, as
    /// the fit pass has; the entry checks of `new` are not repeated.
    #[verifier::loop_isolation(false)]
    pub fn from_rows(rows_vec: Vec<Vec<i64>>, cols: usize) -> (r: Matrix)
        requires
            rows_vec@.len() <= ROWS_MAX,
            cols <= DIM_MAX,
            forall|i: int|
                0 <= i < rows_vec@.len() ==> (#[trigger] rows_vec@[i])@.len() == cols,
            forall|i: int| 0 <= i < rows_vec@.len() ==> bounded_seq(#[trigger] rows_vec@[i]@),
        ensures
            r.wf(),
            r.rows == rows_vec@.len(),
            r.cols == cols,
            forall|i: int|
                0 <= i < rows_vec@.len() ==> #[trigger] r.row_seq(i) == rows_vec@[i]@,
    {
        let ghost rs: Seq<Seq<i64>> = rows_vec@.map_values(|v: Vec<i64>| v@);
        let n = rows_vec.len();
        let mut data: Vec<i64> = Vec::new();
        proof {
            assert(0int * (cols as int) == 0) by (nonlinear_arith);
        }
        for i in 0..n
            invariant
                data@ == flatten_rows(rs, i as int),
                data@.len() == (i as int) * (cols as int),
        {
            let row = &rows_vec[i];
            let m = row.len();
            for j in 0..m
                invariant
                    i < n,
                    m == cols,
                    data@ == flatten_rows(rs, i as int) + rs[i as int].subrange(0, j as int),
                    data@.len() == (i as int) * (cols as int) + j,
            {
                proof {
                    assert((i as int) * (cols as int) + (j as int) < 0x40000000int)
                        by (nonlinear_arith)
                        requires
                            0 <= i as int && (i as int) < 1_048_576,
                            0 <= j as int && (j as int) < 1024,
                            0 <= cols as int && (cols as int) <= 1024,
                    ;
                }
                data.push(row[j]);
                proof {
                    assert(data@ =~= flatten_rows(rs, i as int) + rs[i as int].subrange(
                        0,
                        j as int + 1,
                    ));
                }
            }
            proof {
                assert(rs[i as int].subrange(0, cols as int) =~= rs[i as int]);
                assert((i as int) * (cols as int) + (cols as int) == (i as int + 1) * (
                cols as int)) by (nonlinear_arith);
            }
        }
        let out = Matrix { data, rows: n, cols };
        proof {
            lemma_flatten_len(rs, cols as int, n as int);
            assert forall|k: int|
                0 <= k < out.data@.len() implies -COORD_MAX <= #[trigger] out.data@[k]
                <= COORD_MAX by {
                vstd::arithmetic::div_mod::lemma_fundamental_div_mod(k, cols as int);
                let t = k / (cols as int);
                let u = k % (cols as int);
                assert(0 <= t && t < n as int) by (nonlinear_arith)
                    requires
                        0 <= k && k < (n as int) * (cols as int),
                        1 <= cols as int,
                        (cols as int) * t + u == k,
                        0 <= u && u < cols as int,
                ;
                assert(k == t * (cols as int) + u) by (nonlinear_arith)
                    requires
                        (cols as int) * t + u == k,
                ;
                lemma_flatten_index(rs, cols as int, n as int, t, u);
            }
            assert forall|i: int| 0 <= i < rows_vec@.len() implies #[trigger] out.row_seq(i)
                == rows_vec@[i]@ by {
                assert forall|u: int| 0 <= u < cols as int implies out.row_seq(i)[u]
                    == rs[i][u] by {
                    lemma_flatten_index(rs, cols as int, n as int, i, u);
                }
                assert(out.row_seq(i) =~= rows_vec@[i]@);
            }
        }
        out
    }
}

} // verus!

verus! {

impl Matrix {
    /// Reads one entry.
    pub fn at(&self, i: usize, j: usize) -> (r: i64)
        requires
            self.wf(),
            i < self.rows,
            j < self.cols,
        ensures
            r == self.entry(i as int, j as int),
            -COORD_MAX <= r <= COORD_MAX,
    {
        proof {
            assert(0 <= (i as int) * (self.cols as int) + (j as int) && (i as int) * (
            self.cols as int) + (j as int) < (self.rows as int) * (self.cols as int))
                by (nonlinear_arith)
                requires
                    0 <= i as int && (i as int) < self.rows as int,
                    0 <= j as int && (j as int) < self.cols as int,
            ;
            assert((i as int) * (self.cols as int) + (j as int) < 0x40000000int)
                by (nonlinear_arith)
                requires
                    0 <= i as int && (i as int) < 1_048_576,
                    0 <= j as int && (j as int) < 1024,
                    0 <= self.cols as int && (self.cols as int) <= 1024,
            ;
        }
        self.data[i * self.cols + j]
    }
}

} // verus!
