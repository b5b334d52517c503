use vstd::prelude::*;
use vstd::pervasive::VecAdditionalExecFns;
use vstd::arithmetic::mul::{lemma_mul_inequality, lemma_mul_nonnegative};
use crate::scalar::Operations;
use crate::error::LinAlgError;
use crate::vector::{Vector, spec_dot, dot_sum};

verus! {

/// A dense matrix with a fixed `(rows, cols)` shape and a row-major backing
/// store: cell `(r, c)` lives at `data[r * cols + c]`; the store always
/// holds exactly `rows * cols` elements. A dimension may be zero, giving a
/// degenerate matrix with no cells.
///
/// Its mathematical value (the view `@`) is the sequence of its rows, each a
/// sequence of `cols` scalars.
#[derive(Debug)]
pub struct Matrix<K: Operations> {
    rows: usize,
    cols: usize,
    data: Vec<K>,
}

/// The sequence of the views of a sequence of vectors.
pub open spec fn views_of<K>(rs: Seq<Vec<K>>) -> Seq<Seq<K>> {
    Seq::new(rs.len(), |i: int| rs[i]@)
}

/// A rectangular table with at least one row: every row is as long as the
/// first (rows of length zero included).
pub open spec fn rect<K>(rs: Seq<Seq<K>>) -> bool {
    &&& rs.len() >= 1
    &&& forall|i: int| 0 <= i < rs.len() ==> #[trigger] rs[i].len() == rs[0].len()
}

/// A vector never holds more than `usize::MAX` elements.
proof fn lemma_len_bound<T>(v: &Vec<T>)
    ensures
        v@.len() <= usize::MAX,
{
    vstd::std_specs::vec::axiom_spec_len(v);
}

/// A row-major position is within the store.
pub proof fn lemma_index(rows: int, cols: int, r: int, c: int)
    requires
        0 <= r < rows,
        0 <= c < cols,
    ensures
        0 <= r * cols,
        r * cols + c < rows * cols,
{
    lemma_mul_nonnegative(r, cols);
    lemma_mul_inequality(r + 1, rows, cols);
    assert((r + 1) * cols == r * cols + cols) by (nonlinear_arith);
}

impl<K: Operations> View for Matrix<K> {
    type V = Seq<Seq<K>>;

    closed spec fn view(&self) -> Seq<Seq<K>> {
        Seq::new(
            self.rows as nat,
            |r: int| Seq::new(self.cols as nat, |c: int| self.data@[r * self.cols + c]),
        )
    }
}

impl<K: Operations> Matrix<K> {
    /// The number of rows.
    pub closed spec fn spec_rows(&self) -> nat {
        self.rows as nat
    }

    /// The number of columns.
    pub closed spec fn spec_cols(&self) -> nat {
        self.cols as nat
    }

    /// The row-major backing store as a sequence.
    pub closed spec fn spec_flat(&self) -> Seq<K> {
        self.data@
    }

    /// Well-formed: the store holds exactly one scalar per cell.
    pub closed spec fn wf(&self) -> bool {
        self.data@.len() == self.rows * self.cols
    }

    /// Both dimensions agree.
    pub open spec fn same_shape(&self, other: &Matrix<K>) -> bool {
        self.spec_rows() == other.spec_rows() && self.spec_cols() == other.spec_cols()
    }

    /// The whole store fits in a machine-sized vector.
    pub proof fn lemma_size(&self)
        requires
            self.wf(),
        ensures
            self.spec_rows() * self.spec_cols() <= usize::MAX,
    {
        lemma_len_bound(&self.data);
    }

    /// The view always has one sequence per row, each `cols` long.
    pub proof fn lemma_view_shape(&self)
        ensures
            self@.len() == self.spec_rows(),
            forall|r: int|
                0 <= r < self.spec_rows() ==> #[trigger] self@[r].len() == self.spec_cols(),
    {
    }

    /// Matrices with the same dimensions and the same store have the same
    /// view.
    pub proof fn lemma_view_eq(a: Matrix<K>, b: Matrix<K>)
        requires
            a.spec_rows() == b.spec_rows(),
            a.spec_cols() == b.spec_cols(),
            a.spec_flat() == b.spec_flat(),
        ensures
            a@ == b@,
    {
        assert forall|r: int| 0 <= r < a.spec_rows() implies a@[r] =~= b@[r] by {}
        assert(a@ =~~= b@);
    }

    /// Crate-internal raw constructor: wraps a row-major store of the exact
    /// length.
    pub(crate) fn build(rows: usize, cols: usize, data: Vec<K>) -> (m: Matrix<K>)
        requires
            data@.len() == rows * cols,
        ensures
            m.wf(),
            m.spec_rows() == rows,
            m.spec_cols() == cols,
            m.spec_flat() == data@,
            forall|r: int, c: int|
                0 <= r < rows && 0 <= c < cols ==> #[trigger] m@[r][c] == data@[r * cols + c],
    {
        Matrix { rows, cols, data }
    }

    /// Builds a matrix from a non-empty rectangular sequence of rows; the
    /// shape becomes `(row count, row length)`, where the rows may be empty.
    /// Returns `MalformedInput` if and only if the input holds no row at all
    /// or is ragged.
    pub fn from_rows(rows_in: Vec<Vec<K>>) -> (r: Result<Matrix<K>, LinAlgError>)
        ensures
            match r {
                Ok(m) => {
                    &&& rect(views_of(rows_in@))
                    &&& m.wf()
                    &&& m.spec_rows() == rows_in@.len()
                    &&& m.spec_cols() == rows_in@[0]@.len()
                    &&& m@ == views_of(rows_in@)
                },
                Err(e) => e == LinAlgError::MalformedInput && !rect(views_of(rows_in@)),
            },
    {
        let n = rows_in.len();
        if n == 0 {
            return Err(LinAlgError::MalformedInput);
        }
        let c = rows_in[0].len();
        let mut i: usize = 0;
        while i < n
            invariant
                n == rows_in@.len(),
                c == rows_in@[0]@.len(),
                i <= n,
                forall|k: int| 0 <= k < i ==> #[trigger] rows_in@[k]@.len() == c,
            decreases n - i,
        {
            if rows_in[i].len() != c {
                proof {
                    assert(views_of(rows_in@)[i as int].len() != views_of(rows_in@)[0].len());
                }
                return Err(LinAlgError::MalformedInput);
            }
            i = i + 1;
        }
        let mut flat: Vec<K> = Vec::new();
        let mut r: usize = 0;
        while r < n
            invariant
                n == rows_in@.len(),
                c == rows_in@[0]@.len(),
                forall|k: int| 0 <= k < n ==> #[trigger] rows_in@[k]@.len() == c,
                r <= n,
                flat@.len() == r * c,
                forall|k: int, j: int|
                    0 <= k < r && 0 <= j < c ==> #[trigger] flat@[k * c + j] == rows_in@[k]@[j],
            decreases n - r,
        {
            let row = &rows_in[r];
            let mut j: usize = 0;
            while j < c
                invariant
                    n == rows_in@.len(),
                    r < n,
                    row@ == rows_in@[r as int]@,
                    row@.len() == c,
                    forall|k: int, j2: int|
                        0 <= k < r && 0 <= j2 < c
                            ==> #[trigger] flat@[k * c + j2] == rows_in@[k]@[j2],
                    j <= c,
                    flat@.len() == r * c + j,
                    forall|j2: int| 0 <= j2 < j ==> #[trigger] flat@[r * c + j2] == row@[j2],
                decreases c - j,
            {
                proof {
                    assert forall|k: int, j2: int|
                        0 <= k < r && 0 <= j2 < c implies #[trigger] (k * c + j2) < r * c by {
                        lemma_index(r as int, c as int, k, j2);
                    }
                }
                flat.push(row[j]);
                j = j + 1;
            }
            proof {
                assert((r + 1) * c == r * c + c) by (nonlinear_arith);
                assert forall|k: int, j2: int|
                    0 <= k < r + 1 && 0 <= j2 < c
                        implies #[trigger] flat@[k * c + j2] == rows_in@[k]@[j2] by {
                    if k < r {
                        lemma_index(r as int, c as int, k, j2);
                    } else {
                        lemma_index(r as int + 1, c as int, k, j2);
                    }
                }
            }
            r = r + 1;
        }
        let m = Matrix::build(n, c, flat);
        proof {
            assert forall|k: int| 0 <= k < n implies m@[k] =~= views_of(rows_in@)[k] by {
                assert forall|j: int| 0 <= j < c implies m@[k][j] == rows_in@[k]@[j] by {
                    lemma_index(n as int, c as int, k, j);
                }
            }
            assert(m@ =~= views_of(rows_in@));
        }
        Ok(m)
    }

    /// Builds a matrix of the given shape from a flat sequence, read in
    /// column-major order: cell `(r, c)` takes `flat[c * rows + r]`. Returns
    /// `MalformedInput` if and only if the length does not match the shape.
    pub fn from_flat(flat: Vec<K>, shape: (usize, usize)) -> (r: Result<Matrix<K>, LinAlgError>)
        ensures
            match r {
                Ok(m) => {
                    &&& flat@.len() == shape.0 * shape.1
                    &&& m.wf()
                    &&& m.spec_rows() == shape.0
                    &&& m.spec_cols() == shape.1
                    &&& forall|i: int, j: int|
                        0 <= i < shape.0 && 0 <= j < shape.1
                            ==> #[trigger] m@[i][j] == flat@[j * shape.0 + i]
                },
                Err(e) => {
                    &&& e == LinAlgError::MalformedInput
                    &&& flat@.len() != shape.0 * shape.1
                },
            },
    {
        let len = flat.len();
        let (rows, cols) = shape;
        let total = match rows.checked_mul(cols) {
            Some(t) => t,
            None => {
                return Err(LinAlgError::MalformedInput);
            },
        };
        if len != total {
            return Err(LinAlgError::MalformedInput);
        }
        let mut data: Vec<K> = Vec::new();
        let mut r: usize = 0;
        while r < rows
            invariant
                rows * cols <= usize::MAX,
                flat@.len() == rows * cols,
                r <= rows,
                data@.len() == r * cols,
                forall|k: int, j: int|
                    0 <= k < r && 0 <= j < cols
                        ==> #[trigger] data@[k * cols + j] == flat@[j * rows + k],
            decreases rows - r,
        {
            let mut j: usize = 0;
            while j < cols
                invariant
                    rows * cols <= usize::MAX,
                    flat@.len() == rows * cols,
                    r < rows,
                    forall|k: int, j2: int|
                        0 <= k < r && 0 <= j2 < cols
                            ==> #[trigger] data@[k * cols + j2] == flat@[j2 * rows + k],
                    j <= cols,
                    data@.len() == r * cols + j,
                    forall|j2: int|
                        0 <= j2 < j ==> #[trigger] data@[r * cols + j2] == flat@[j2 * rows + r],
                decreases cols - j,
            {
                proof {
                    lemma_index(cols as int, rows as int, j as int, r as int);
                    assert(j * rows + r < rows * cols) by (nonlinear_arith)
                        requires j * rows + r < cols * rows;
                    lemma_index(rows as int, cols as int, r as int, j as int);
                    assert forall|k: int, j2: int|
                        0 <= k < r && 0 <= j2 < cols implies #[trigger] (k * cols + j2) < r
                            * cols by {
                        lemma_index(r as int, cols as int, k, j2);
                    }
                }
                data.push(flat[j * rows + r]);
                j = j + 1;
            }
            proof {
                assert((r + 1) * cols == r * cols + cols) by (nonlinear_arith);
                assert forall|k: int, j2: int|
                    0 <= k < r + 1 && 0 <= j2 < cols
                        implies #[trigger] data@[k * cols + j2] == flat@[j2 * rows + k] by {
                    if k < r {
                        lemma_index(r as int, cols as int, k, j2);
                    } else {
                        lemma_index(r as int + 1, cols as int, k, j2);
                    }
                }
            }
            r = r + 1;
        }
        let m = Matrix::build(rows, cols, data);
        Ok(m)
    }

    /// The `(rows, cols)` shape.
    pub fn shape(&self) -> (r: (usize, usize))
        ensures
            r.0 == self.spec_rows(),
            r.1 == self.spec_cols(),
    {
        (self.rows, self.cols)
    }

    /// A copy of the row-major backing store.
    pub fn flat(&self) -> (r: Vec<K>)
        requires
            self.wf(),
        ensures
            r@ == self.spec_flat(),
            r@.len() == self.spec_rows() * self.spec_cols(),
            forall|i: int, j: int|
                0 <= i < self.spec_rows() && 0 <= j < self.spec_cols()
                    ==> #[trigger] r@[i * self.spec_cols() + j] == self@[i][j],
    {
        let mut out: Vec<K> = Vec::new();
        let mut i: usize = 0;
        while i < self.data.len()
            invariant
                i <= self.data@.len(),
                out@ == self.data@.subrange(0, i as int),
            decreases self.data@.len() - i,
        {
            out.push(self.data[i]);
            i = i + 1;
        }
        proof {
            assert(out@ =~= self.data@);
        }
        out
    }

    /// Whether the shape is square.
    pub fn is_square(&self) -> (r: bool)
        ensures
            r == (self.spec_rows() == self.spec_cols()),
    {
        self.rows == self.cols
    }

    /// Gives the matrix a new shape over the same row-major store. Returns
    /// `MalformedInput` (leaving the matrix unchanged) if and only if the
    /// cell count differs.
    pub fn reshape(&mut self, shape: (usize, usize)) -> (r: Result<(), LinAlgError>)
        requires
            old(self).wf(),
        ensures
            final(self).wf(),
            final(self).spec_flat() == old(self).spec_flat(),
            match r {
                Ok(()) => {
                    &&& shape.0 * shape.1 == old(self).spec_rows() * old(self).spec_cols()
                    &&& final(self).spec_rows() == shape.0
                    &&& final(self).spec_cols() == shape.1
                },
                Err(e) => {
                    &&& e == LinAlgError::MalformedInput
                    &&& shape.0 * shape.1 != old(self).spec_rows() * old(self).spec_cols()
                    &&& *final(self) == *old(self)
                },
            },
    {
        let n = self.data.len();
        let (rows, cols) = shape;
        let total = match rows.checked_mul(cols) {
            Some(t) => t,
            None => {
                return Err(LinAlgError::MalformedInput);
            },
        };
        if total != n {
            return Err(LinAlgError::MalformedInput);
        }
        self.rows = rows;
        self.cols = cols;
        Ok(())
    }

    /// The scalar at `(r, c)`; the position must be in range.
    pub fn get(&self, r: usize, c: usize) -> (v: K)
        requires
            self.wf(),
            r < self.spec_rows(),
            c < self.spec_cols(),
        ensures
            v == self@[r as int][c as int],
    {
        proof {
            lemma_len_bound(&self.data);
            lemma_index(self.rows as int, self.cols as int, r as int, c as int);
        }
        self.data[r * self.cols + c]
    }

    /// Replaces the scalar at `(r, c)`; the position must be in range.
    pub fn set(&mut self, r: usize, c: usize, value: K)
        requires
            old(self).wf(),
            r < old(self).spec_rows(),
            c < old(self).spec_cols(),
        ensures
            final(self).wf(),
            final(self).spec_rows() == old(self).spec_rows(),
            final(self).spec_cols() == old(self).spec_cols(),
            final(self)@ == old(self)@.update(
                r as int,
                old(self)@[r as int].update(c as int, value),
            ),
    {
        proof {
            lemma_len_bound(&self.data);
            lemma_index(self.rows as int, self.cols as int, r as int, c as int);
        }
        self.data.set(r * self.cols + c, value);
        proof {
            let target = old(self)@.update(r as int, old(self)@[r as int].update(c as int, value));
            assert forall|i: int| 0 <= i < self.rows as int implies self@[i] =~= target[i] by {
                assert forall|j: int| 0 <= j < self.cols as int
                    implies self@[i][j] == target[i][j] by {
                    lemma_index(self.rows as int, self.cols as int, i, j);
                    if i * self.cols + j == r * self.cols + c {
                        assert((i - r) * self.cols == c - j) by (nonlinear_arith)
                            requires i * self.cols + j == r * self.cols + c;
                        assert(i == r && j == c) by (nonlinear_arith)
                            requires
                                (i - r) * (self.cols as int) == c - j
                                    && 0 <= j < self.cols as int
                                    && 0 <= c < self.cols as int;
                    }
                }
            }
            assert(self@ =~~= target);
        }
    }

    /// Elementwise sum, in place. Returns `ShapeMismatch` (leaving the
    /// matrix unchanged) if and only if the shapes differ.
    pub fn add(&mut self, v: &Matrix<K>) -> (r: Result<(), LinAlgError>)
        requires
            old(self).wf(),
            v.wf(),
        ensures
            final(self).wf(),
            final(self).spec_rows() == old(self).spec_rows(),
            final(self).spec_cols() == old(self).spec_cols(),
            match r {
                Ok(()) => old(self).same_shape(v) && final(self)@ == mat_add(old(self)@, v@),
                Err(e) => {
                    &&& e == LinAlgError::ShapeMismatch
                    &&& !old(self).same_shape(v)
                    &&& *final(self) == *old(self)
                },
            },
    {
        if self.rows != v.rows || self.cols != v.cols {
            return Err(LinAlgError::ShapeMismatch);
        }
        let mut i: usize = 0;
        while i < self.data.len()
            invariant
                self.rows == old(self).rows,
                self.cols == old(self).cols,
                self.wf(),
                v.wf(),
                self.rows == v.rows,
                self.cols == v.cols,
                i <= self.data@.len(),
                self.data@.len() == old(self).data@.len(),
                forall|k: int|
                    0 <= k < i ==> #[trigger] self.data@[k] == old(self).data@[k].sp_add(
                        v.data@[k],
                    ),
                forall|k: int| i <= k < self.data@.len() ==> #[trigger] self.data@[k] == old(
                    self,
                ).data@[k],
            decreases self.data@.len() - i,
        {
            let sum = self.data[i].add(v.data[i]);
            self.data.set(i, sum);
            i = i + 1;
        }
        proof {
            let t = mat_add(old(self)@, v@);
            assert forall|a: int| 0 <= a < self.rows as int implies self@[a] =~= t[a] by {
                assert forall|b: int| 0 <= b < self.cols as int
                    implies self@[a][b] == t[a][b] by {
                    lemma_index(self.rows as int, self.cols as int, a, b);
                }
            }
            assert(self@ =~~= t);
        }
        Ok(())
    }

    /// Elementwise difference, in place. Returns `ShapeMismatch` (leaving
    /// the matrix unchanged) if and only if the shapes differ.
    pub fn sub(&mut self, v: &Matrix<K>) -> (r: Result<(), LinAlgError>)
        requires
            old(self).wf(),
            v.wf(),
        ensures
            final(self).wf(),
            final(self).spec_rows() == old(self).spec_rows(),
            final(self).spec_cols() == old(self).spec_cols(),
            match r {
                Ok(()) => old(self).same_shape(v) && final(self)@ == mat_sub(old(self)@, v@),
                Err(e) => {
                    &&& e == LinAlgError::ShapeMismatch
                    &&& !old(self).same_shape(v)
                    &&& *final(self) == *old(self)
                },
            },
    {
        if self.rows != v.rows || self.cols != v.cols {
            return Err(LinAlgError::ShapeMismatch);
        }
        let mut i: usize = 0;
        while i < self.data.len()
            invariant
                self.rows == old(self).rows,
                self.cols == old(self).cols,
                self.wf(),
                v.wf(),
                self.rows == v.rows,
                self.cols == v.cols,
                i <= self.data@.len(),
                self.data@.len() == old(self).data@.len(),
                forall|k: int|
                    0 <= k < i ==> #[trigger] self.data@[k] == old(self).data@[k].sp_sub(
                        v.data@[k],
                    ),
                forall|k: int| i <= k < self.data@.len() ==> #[trigger] self.data@[k] == old(
                    self,
                ).data@[k],
            decreases self.data@.len() - i,
        {
            let diff = self.data[i].sub(v.data[i]);
            self.data.set(i, diff);
            i = i + 1;
        }
        proof {
            let t = mat_sub(old(self)@, v@);
            assert forall|a: int| 0 <= a < self.rows as int implies self@[a] =~= t[a] by {
                assert forall|b: int| 0 <= b < self.cols as int
                    implies self@[a][b] == t[a][b] by {
                    lemma_index(self.rows as int, self.cols as int, a, b);
                }
            }
            assert(self@ =~~= t);
        }
        Ok(())
    }

    /// Multiplies every cell by the scalar `a`, in place.
    pub fn scl(&mut self, a: K)
        requires
            old(self).wf(),
        ensures
            final(self).wf(),
            final(self).spec_rows() == old(self).spec_rows(),
            final(self).spec_cols() == old(self).spec_cols(),
            final(self)@ == mat_scale(old(self)@, a),
    {
        let mut i: usize = 0;
        while i < self.data.len()
            invariant
                self.rows == old(self).rows,
                self.cols == old(self).cols,
                self.wf(),
                i <= self.data@.len(),
                self.data@.len() == old(self).data@.len(),
                forall|k: int|
                    0 <= k < i ==> #[trigger] self.data@[k] == old(self).data@[k].sp_mul(a),
                forall|k: int| i <= k < self.data@.len() ==> #[trigger] self.data@[k] == old(
                    self,
                ).data@[k],
            decreases self.data@.len() - i,
        {
            let scaled = self.data[i].mul(a);
            self.data.set(i, scaled);
            i = i + 1;
        }
        proof {
            let t = mat_scale(old(self)@, a);
            assert forall|r: int| 0 <= r < self.rows as int implies self@[r] =~= t[r] by {
                assert forall|c: int| 0 <= c < self.cols as int
                    implies self@[r][c] == t[r][c] by {
                    lemma_index(self.rows as int, self.cols as int, r, c);
                }
            }
            assert(self@ =~~= t);
        }
    }

    /// A new matrix with the shape flipped and cell `(c, r)` holding this
    /// matrix's cell `(r, c)`.
    pub fn transpose(&self) -> (t: Matrix<K>)
        requires
            self.wf(),
        ensures
            t.wf(),
            t.spec_rows() == self.spec_cols(),
            t.spec_cols() == self.spec_rows(),
            t@ == mat_transpose(self@, self.spec_cols()),
            forall|c: int, r: int|
                0 <= c < self.spec_cols() && 0 <= r < self.spec_rows()
                    ==> #[trigger] t@[c][r] == self@[r][c],
    {
        let rows = self.rows;
        let cols = self.cols;
        let mut out: Vec<K> = Vec::new();
        let mut c: usize = 0;
        while c < cols
            invariant
                self.wf(),
                rows == self.rows,
                cols == self.cols,
                c <= cols,
                out@.len() == c * rows,
                forall|k: int, j: int|
                    0 <= k < c && 0 <= j < rows
                        ==> #[trigger] out@[k * rows + j] == self@[j][k],
            decreases cols - c,
        {
            let mut r: usize = 0;
            while r < rows
                invariant
                    self.wf(),
                    rows == self.rows,
                    cols == self.cols,
                    c < cols,
                    r <= rows,
                    out@.len() == c * rows + r,
                    forall|k: int, j: int|
                        0 <= k < c && 0 <= j < rows
                            ==> #[trigger] out@[k * rows + j] == self@[j][k],
                    forall|j: int| 0 <= j < r ==> #[trigger] out@[c * rows + j] == self@[j][c as int],
                decreases rows - r,
            {
                proof {
                    assert forall|k: int, j: int|
                        0 <= k < c && 0 <= j < rows implies #[trigger] (k * rows + j) < c
                            * rows by {
                        lemma_index(c as int, rows as int, k, j);
                    }
                }
                let value = self.get(r, c);
                out.push(value);
                r = r + 1;
            }
            proof {
                assert((c + 1) * rows == c * rows + rows) by (nonlinear_arith);
                assert forall|k: int, j: int|
                    0 <= k < c + 1 && 0 <= j < rows
                        implies #[trigger] out@[k * rows + j] == self@[j][k] by {
                    if k < c {
                        lemma_index(c as int, rows as int, k, j);
                    } else {
                        lemma_index(c as int + 1, rows as int, k, j);
                    }
                }
            }
            c = c + 1;
        }
        let t = Matrix::build(cols, rows, out);
        proof {
            let target = mat_transpose(self@, self.spec_cols());
            assert forall|k: int| 0 <= k < cols as int implies t@[k] =~= target[k] by {
                assert forall|j: int| 0 <= j < rows as int
                    implies t@[k][j] == self@[j][k] by {
                    lemma_index(cols as int, rows as int, k, j);
                }
            }
            assert(t@ =~~= target);
        }
        t
    }

    /// The sum of the diagonal. Returns `NotSquare` if and only if the shape
    /// is not square.
    pub fn trace(&self) -> (r: Result<K, LinAlgError>)
        requires
            self.wf(),
        ensures
            match r {
                Ok(k) => {
                    &&& self.spec_rows() == self.spec_cols()
                    &&& k == diag_sum(self@, self.spec_rows() as int)
                },
                Err(e) => {
                    &&& e == LinAlgError::NotSquare
                    &&& self.spec_rows() != self.spec_cols()
                },
            },
    {
        if self.rows != self.cols {
            return Err(LinAlgError::NotSquare);
        }
        let mut sum = K::zero();
        let mut i: usize = 0;
        while i < self.rows
            invariant
                self.wf(),
                self.rows == self.cols,
                i <= self.rows,
                sum == diag_sum(self@, i as int),
            decreases self.rows - i,
        {
            sum = sum.add(self.get(i, i));
            i = i + 1;
        }
        Ok(sum)
    }

    /// Swaps rows `a` and `b`, in place.
    pub fn swap_rows(&mut self, a: usize, b: usize)
        requires
            old(self).wf(),
            a < old(self).spec_rows(),
            b < old(self).spec_rows(),
        ensures
            final(self).wf(),
            final(self).spec_rows() == old(self).spec_rows(),
            final(self).spec_cols() == old(self).spec_cols(),
            final(self)@ == old(self)@.update(a as int, old(self)@[b as int]).update(
                b as int,
                old(self)@[a as int],
            ),
    {
        let cols = self.cols;
        let ghost target = old(self)@.update(a as int, old(self)@[b as int]).update(
            b as int,
            old(self)@[a as int],
        );
        let mut c: usize = 0;
        while c < cols
            invariant
                self.wf(),
                self.rows == old(self).rows,
                self.cols == old(self).cols,
                cols == self.cols,
                a < self.spec_rows(),
                b < self.spec_rows(),
                c <= cols,
                forall|i: int, j: int|
                    0 <= i < self.spec_rows() && 0 <= j < self.spec_cols() && i != a && i != b
                        ==> #[trigger] self@[i][j] == old(self)@[i][j],
                forall|j: int|
                    0 <= j < c ==> #[trigger] self@[a as int][j] == old(self)@[b as int][j],
                forall|j: int|
                    c <= j < self.spec_cols() ==> #[trigger] self@[a as int][j] == old(
                        self,
                    )@[a as int][j],
                forall|j: int|
                    0 <= j < c ==> #[trigger] self@[b as int][j] == old(self)@[a as int][j],
                forall|j: int|
                    c <= j < self.spec_cols() ==> #[trigger] self@[b as int][j] == old(
                        self,
                    )@[b as int][j],
            decreases cols - c,
        {
            let tmp = self.get(a, c);
            let other = self.get(b, c);
            self.set(a, c, other);
            self.set(b, c, tmp);
            c = c + 1;
        }
        proof {
            assert forall|i: int| 0 <= i < self.spec_rows() implies self@[i] =~= target[i] by {
                self.lemma_view_shape();
                old(self).lemma_view_shape();
            }
            assert(self@ =~~= target);
        }
    }

    /// Divides every cell of row `i` by the nonzero scalar `d`, in place.
    pub fn div_row(&mut self, i: usize, d: K)
        requires
            old(self).wf(),
            i < old(self).spec_rows(),
            d != K::sp_zero(),
        ensures
            final(self).wf(),
            final(self).spec_rows() == old(self).spec_rows(),
            final(self).spec_cols() == old(self).spec_cols(),
            final(self)@ == old(self)@.update(i as int, row_div(old(self)@[i as int], d)),
    {
        let cols = self.cols;
        let mut c: usize = 0;
        while c < cols
            invariant
                self.wf(),
                self.rows == old(self).rows,
                self.cols == old(self).cols,
                cols == self.cols,
                i < self.spec_rows(),
                d != K::sp_zero(),
                c <= cols,
                forall|r: int, j: int|
                    0 <= r < self.spec_rows() && 0 <= j < self.spec_cols() && r != i
                        ==> #[trigger] self@[r][j] == old(self)@[r][j],
                forall|j: int|
                    0 <= j < c ==> #[trigger] self@[i as int][j] == old(self)@[i as int][j].sp_div(
                        d,
                    ),
                forall|j: int|
                    c <= j < self.spec_cols() ==> #[trigger] self@[i as int][j] == old(
                        self,
                    )@[i as int][j],
            decreases cols - c,
        {
            let value = self.get(i, c).div(d);
            self.set(i, c, value);
            c = c + 1;
        }
        proof {
            let target = old(self)@.update(i as int, row_div(old(self)@[i as int], d));
            assert forall|r: int| 0 <= r < self.spec_rows() implies self@[r] =~= target[r] by {
                self.lemma_view_shape();
                old(self).lemma_view_shape();
            }
            assert(self@ =~~= target);
        }
    }

    /// Subtracts `f` times row `src` from row `i`, cell by cell, in place.
    pub fn sub_scaled_row(&mut self, i: usize, f: K, src: usize)
        requires
            old(self).wf(),
            i < old(self).spec_rows(),
            src < old(self).spec_rows(),
            i != src,
        ensures
            final(self).wf(),
            final(self).spec_rows() == old(self).spec_rows(),
            final(self).spec_cols() == old(self).spec_cols(),
            final(self)@ == old(self)@.update(
                i as int,
                row_sub_scaled(old(self)@[i as int], f, old(self)@[src as int]),
            ),
    {
        let cols = self.cols;
        let mut c: usize = 0;
        while c < cols
            invariant
                self.wf(),
                self.rows == old(self).rows,
                self.cols == old(self).cols,
                cols == self.cols,
                i < self.spec_rows(),
                src < self.spec_rows(),
                i != src,
                c <= cols,
                forall|r: int, j: int|
                    0 <= r < self.spec_rows() && 0 <= j < self.spec_cols() && r != i
                        ==> #[trigger] self@[r][j] == old(self)@[r][j],
                forall|j: int|
                    0 <= j < c ==> #[trigger] self@[i as int][j] == old(self)@[i as int][j].sp_sub(
                        f.sp_mul(old(self)@[src as int][j]),
                    ),
                forall|j: int|
                    c <= j < self.spec_cols() ==> #[trigger] self@[i as int][j] == old(
                        self,
                    )@[i as int][j],
            decreases cols - c,
        {
            let value = self.get(i, c).sub(f.mul(self.get(src, c)));
            self.set(i, c, value);
            c = c + 1;
        }
        proof {
            let target = old(self)@.update(
                i as int,
                row_sub_scaled(old(self)@[i as int], f, old(self)@[src as int]),
            );
            assert forall|r: int| 0 <= r < self.spec_rows() implies self@[r] =~= target[r] by {
                self.lemma_view_shape();
                old(self).lemma_view_shape();
            }
            assert(self@ =~~= target);
        }
    }

    /// A well-formed copy of this matrix.
    pub fn duplicate(&self) -> (m: Matrix<K>)
        requires
            self.wf(),
        ensures
            m.wf(),
            m.spec_rows() == self.spec_rows(),
            m.spec_cols() == self.spec_cols(),
            m@ == self@,
    {
        let (rows, cols) = self.shape();
        let data = self.flat();
        let m = Matrix::build(rows, cols, data);
        proof {
            assert forall|r: int| 0 <= r < rows as int implies m@[r] =~= self@[r] by {
                m.lemma_view_shape();
                self.lemma_view_shape();
                assert forall|c: int| 0 <= c < cols as int
                    implies m@[r][c] == self@[r][c] by {
                    lemma_index(rows as int, cols as int, r, c);
                }
            }
            assert(m@ =~~= self@);
        }
        m
    }

    /// The matrix-vector product: entry `i` is the dot product of row `i`
    /// with the vector. Returns `ShapeMismatch` if and only if the column
    /// count differs from the vector's length.
    pub fn mul_vec(&self, vec: Vector<K>) -> (r: Result<Vector<K>, LinAlgError>)
        requires
            self.wf(),
            vec.wf(),
        ensures
            match r {
                Ok(w) => {
                    &&& self.spec_cols() == vec.spec_len()
                    &&& w.wf()
                    &&& w.spec_len() == self.spec_rows()
                    &&& w@.len() == self.spec_rows()
                    &&& forall|i: int|
                        0 <= i < self.spec_rows()
                            ==> #[trigger] w@[i] == spec_dot(self@[i], vec@)
                },
                Err(e) => {
                    &&& e == LinAlgError::ShapeMismatch
                    &&& self.spec_cols() != vec.spec_len()
                },
            },
    {
        let (vlen, _) = vec.shape();
        if self.cols != vlen {
            return Err(LinAlgError::ShapeMismatch);
        }
        proof {
            vec.lemma_view_len();
            self.lemma_view_shape();
        }
        let rows = self.rows;
        let cols = self.cols;
        let mut out: Vec<K> = Vec::new();
        let mut i: usize = 0;
        while i < rows
            invariant
                self.wf(),
                vec.wf(),
                rows == self.spec_rows(),
                cols == self.spec_cols(),
                cols == vec.spec_len(),
                vec@.len() == cols,
                i <= rows,
                out@.len() == i,
                forall|k: int| 0 <= k < i ==> #[trigger] out@[k] == spec_dot(self@[k], vec@),
            decreases rows - i,
        {
            let mut sum = K::zero();
            let mut c: usize = 0;
            while c < cols
                invariant
                    self.wf(),
                    vec.wf(),
                    rows == self.spec_rows(),
                    cols == self.spec_cols(),
                    cols == vec.spec_len(),
                    vec@.len() == cols,
                    i < rows,
                    c <= cols,
                    sum == dot_sum(self@[i as int], vec@, c as int),
                decreases cols - c,
            {
                sum = sum.add(self.get(i, c).mul(vec.get(c)));
                c = c + 1;
            }
            proof {
                self.lemma_view_shape();
                assert(self@[i as int].len() == cols);
            }
            out.push(sum);
            i = i + 1;
        }
        let m = Matrix::build(rows, 1, out);
        proof {
            assert forall|k: int| 0 <= k < rows as int
                implies m@[k][0] == spec_dot(self@[k], vec@) by {
                assert(m@[k][0] == out@[k * 1 + 0]);
            }
        }
        Ok(Vector::wrap(m))
    }

    /// The matrix product: cell `(i, j)` is the dot product of row `i` of
    /// this matrix with column `j` of `mat`. Returns `ShapeMismatch` if and
    /// only if this matrix's column count differs from `mat`'s row count.
    pub fn mul_mat(&self, mat: Matrix<K>) -> (r: Result<Matrix<K>, LinAlgError>)
        requires
            self.wf(),
            mat.wf(),
        ensures
            match r {
                Ok(m) => {
                    &&& self.spec_cols() == mat.spec_rows()
                    &&& m.wf()
                    &&& m.spec_rows() == self.spec_rows()
                    &&& m.spec_cols() == mat.spec_cols()
                    &&& forall|i: int, j: int|
                        0 <= i < self.spec_rows() && 0 <= j < mat.spec_cols()
                            ==> #[trigger] m@[i][j] == spec_dot(self@[i], col_of(mat@, j))
                },
                Err(e) => {
                    &&& e == LinAlgError::ShapeMismatch
                    &&& self.spec_cols() != mat.spec_rows()
                },
            },
    {
        if self.cols != mat.rows {
            return Err(LinAlgError::ShapeMismatch);
        }
        let rows = self.rows;
        let cols = self.cols;
        let ocols = mat.cols;
        let mut out: Vec<K> = Vec::new();
        let mut i: usize = 0;
        while i < rows
            invariant
                self.wf(),
                mat.wf(),
                rows == self.spec_rows(),
                cols == self.spec_cols(),
                cols == mat.spec_rows(),
                ocols == mat.spec_cols(),
                i <= rows,
                out@.len() == i * ocols,
                forall|k: int, j: int|
                    0 <= k < i && 0 <= j < ocols
                        ==> #[trigger] out@[k * ocols + j] == spec_dot(self@[k], col_of(mat@, j)),
            decreases rows - i,
        {
            let mut j: usize = 0;
            while j < ocols
                invariant
                    self.wf(),
                    mat.wf(),
                    rows == self.spec_rows(),
                    cols == self.spec_cols(),
                    cols == mat.spec_rows(),
                    ocols == mat.spec_cols(),
                    i < rows,
                    j <= ocols,
                    out@.len() == i * ocols + j,
                    forall|k: int, j2: int|
                        0 <= k < i && 0 <= j2 < ocols
                            ==> #[trigger] out@[k * ocols + j2] == spec_dot(
                            self@[k],
                            col_of(mat@, j2),
                        ),
                    forall|j2: int|
                        0 <= j2 < j ==> #[trigger] out@[i * ocols + j2] == spec_dot(
                            self@[i as int],
                            col_of(mat@, j2),
                        ),
                decreases ocols - j,
            {
                let mut sum = K::zero();
                let mut c: usize = 0;
                while c < cols
                    invariant
                        self.wf(),
                        mat.wf(),
                        rows == self.spec_rows(),
                        cols == self.spec_cols(),
                        cols == mat.spec_rows(),
                        ocols == mat.spec_cols(),
                        i < rows,
                        j < ocols,
                        c <= cols,
                        sum == dot_sum(self@[i as int], col_of(mat@, j as int), c as int),
                    decreases cols - c,
                {
                    sum = sum.add(self.get(i, c).mul(mat.get(c, j)));
                    c = c + 1;
                }
                proof {
                    self.lemma_view_shape();
                    assert(self@[i as int].len() == cols);
                    assert forall|k: int, j2: int|
                        0 <= k < i && 0 <= j2 < ocols
                            implies #[trigger] (k * ocols + j2) < i * ocols by {
                        lemma_index(i as int, ocols as int, k, j2);
                    }
                }
                out.push(sum);
                j = j + 1;
            }
            proof {
                assert((i + 1) * ocols == i * ocols + ocols) by (nonlinear_arith);
                assert forall|k: int, j2: int|
                    0 <= k < i + 1 && 0 <= j2 < ocols
                        implies #[trigger] out@[k * ocols + j2] == spec_dot(
                        self@[k],
                        col_of(mat@, j2),
                    ) by {
                    if k < i {
                        lemma_index(i as int, ocols as int, k, j2);
                    } else {
                        lemma_index(i as int + 1, ocols as int, k, j2);
                    }
                }
            }
            i = i + 1;
        }
        let m = Matrix::build(rows, ocols, out);
        proof {
            assert forall|a: int, b: int|
                0 <= a < rows as int && 0 <= b < ocols as int
                    implies #[trigger] m@[a][b] == spec_dot(self@[a], col_of(mat@, b)) by {
                lemma_index(rows as int, ocols as int, a, b);
            }
        }
        Ok(m)
    }
}

/// A row with every cell divided by `d`.
pub open spec fn row_div<K: Operations>(row: Seq<K>, d: K) -> Seq<K> {
    Seq::new(row.len(), |c: int| row[c].sp_div(d))
}

/// A row minus `f` times another row, cell by cell.
pub open spec fn row_sub_scaled<K: Operations>(row: Seq<K>, f: K, src: Seq<K>) -> Seq<K> {
    Seq::new(row.len(), |c: int| row[c].sp_sub(f.sp_mul(src[c])))
}

/// Column `c` of a table, read top to bottom.
pub open spec fn col_of<K: Operations>(m: Seq<Seq<K>>, c: int) -> Seq<K> {
    Seq::new(m.len(), |r: int| m[r][c])
}

/// The elementwise sum of two same-shape tables.
pub open spec fn mat_add<K: Operations>(a: Seq<Seq<K>>, b: Seq<Seq<K>>) -> Seq<Seq<K>> {
    Seq::new(a.len(), |i: int| Seq::new(a[i].len(), |j: int| a[i][j].sp_add(b[i][j])))
}

/// The elementwise difference of two same-shape tables.
pub open spec fn mat_sub<K: Operations>(a: Seq<Seq<K>>, b: Seq<Seq<K>>) -> Seq<Seq<K>> {
    Seq::new(a.len(), |i: int| Seq::new(a[i].len(), |j: int| a[i][j].sp_sub(b[i][j])))
}

/// The table with every cell multiplied by the scalar `s`.
pub open spec fn mat_scale<K: Operations>(a: Seq<Seq<K>>, s: K) -> Seq<Seq<K>> {
    Seq::new(a.len(), |i: int| Seq::new(a[i].len(), |j: int| a[i][j].sp_mul(s)))
}

/// The transpose of a rectangular table whose rows are `cols` long.
pub open spec fn mat_transpose<K: Operations>(a: Seq<Seq<K>>, cols: nat) -> Seq<Seq<K>> {
    Seq::new(cols, |c: int| Seq::new(a.len(), |r: int| a[r][c]))
}

/// The sum of the first `n` diagonal cells, accumulated from zero.
pub open spec fn diag_sum<K: Operations>(m: Seq<Seq<K>>, n: int) -> K
    decreases n,
{
    if n <= 0 {
        K::sp_zero()
    } else {
        diag_sum(m, n - 1).sp_add(m[n - 1][n - 1])
    }
}

} // verus!
